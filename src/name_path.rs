//! Hierarchical field names in bracket-suffix notation (`base[seg][seg]`),
//! and the decimal segments that address list elements.
use vstd::prelude::*;

verus! {

/// A path: the base name followed by its bracketed segments.
pub type PathView = Seq<Seq<char>>;

pub open spec fn is_digit(c: char) -> bool {
    '0' <= c && c <= '9'
}

pub open spec fn digit_value(c: char) -> nat {
    ((c as u32) - 48) as nat
}

pub open spec fn digit_char(d: nat) -> char {
    ((48 + d) as u8) as char
}

/// The canonical decimal text of `n`.
pub open spec fn decimal(n: nat) -> Seq<char>
    decreases n,
{
    if n < 10 {
        seq![digit_char(n)]
    } else {
        decimal(n / 10).push(digit_char(n % 10))
    }
}

pub open spec fn all_digits(s: Seq<char>) -> bool {
    forall|i: int| 0 <= i < s.len() ==> is_digit(#[trigger] s[i])
}

/// The number written by a string of decimal digits.
pub open spec fn digits_value(s: Seq<char>) -> nat
    decreases s.len(),
{
    if s.len() == 0 {
        0
    } else {
        digits_value(s.drop_last()) * 10 + digit_value(s.last())
    }
}

/// Decimal text with no superfluous leading zero.
pub open spec fn is_canonical_decimal(s: Seq<char>) -> bool {
    &&& s.len() > 0
    &&& all_digits(s)
    &&& (s.len() > 1 ==> s[0] != '0')
}

/// The list index a segment denotes, if it is one.
pub open spec fn segment_index(s: Seq<char>) -> Option<nat> {
    if is_canonical_decimal(s) && digits_value(s) <= usize::MAX {
        Some(digits_value(s))
    } else {
        None
    }
}

proof fn lemma_digit_round_trip(d: nat)
    requires
        d < 10,
    ensures
        is_digit(digit_char(d)),
        digit_value(digit_char(d)) == d,
        digit_char(d) == '0' <==> d == 0,
{
    assert(digit_char(d) as u32 == 48 + d);
}

proof fn lemma_decimal_shape(n: nat)
    ensures
        is_canonical_decimal(decimal(n)),
        digits_value(decimal(n)) == n,
        decimal(n).len() <= n + 1,
        n > 0 ==> decimal(n)[0] != '0',
    decreases n,
{
    if n < 10 {
        lemma_digit_round_trip(n);
        let s = decimal(n);
        assert(s.drop_last() =~= Seq::<char>::empty());
        assert(digits_value(s.drop_last()) == 0);
    } else {
        let q = n / 10;
        let r = n % 10;
        lemma_decimal_shape(q);
        lemma_digit_round_trip(r);
        let s = decimal(n);
        assert(s.drop_last() =~= decimal(q));
        assert(s[0] == decimal(q)[0]);
        assert(n == q * 10 + r);
        assert forall|i: int| 0 <= i < s.len() implies is_digit(#[trigger] s[i]) by {
            if i < s.len() - 1 {
                assert(s[i] == decimal(q)[i]);
            }
        }
    }
}

/// Decimal texts of distinct numbers differ.
pub proof fn lemma_decimal_injective(a: nat, b: nat)
    ensures
        decimal(a) == decimal(b) <==> a == b,
{
    lemma_decimal_shape(a);
    lemma_decimal_shape(b);
}

/// A decimal text holds digits alone.
pub proof fn lemma_decimal_digits(n: nat)
    ensures
        all_digits(decimal(n)),
{
    lemma_decimal_shape(n);
}

/// A list index's decimal text denotes that index again.
pub proof fn lemma_decimal_is_index(n: nat)
    requires
        n <= usize::MAX,
    ensures
        segment_index(decimal(n)) == Some(n),
{
    lemma_decimal_shape(n);
}

/// Appends the decimal text of `n` to `out`.
fn push_decimal(n: usize, out: &mut Vec<char>)
    ensures
        final(out)@ == old(out)@ + decimal(n as nat),
    decreases n,
{
    if n >= 10 {
        push_decimal(n / 10, out);
    }
    let d: u8 = (n % 10) as u8;
    let c: char = (48u8 + d) as char;
    proof {
        assert(c == digit_char((n % 10) as nat));
    }
    out.push(c);
    proof {
        if n >= 10 {
            assert(final(out)@ =~= old(out)@ + decimal(n as nat));
        } else {
            assert(final(out)@ =~= old(out)@ + decimal(n as nat));
        }
    }
}

/// Relies on `FromIterator<char>` for `String`: the characters, in order.
#[verifier::external_body]
pub(crate) fn string_from_chars(cs: Vec<char>) -> (r: String)
    ensures
        r@ == cs@,
{
    String::from_iter(cs)
}

/// The characters of a text, in order.
pub(crate) fn chars_of(s: &str) -> (r: Vec<char>)
    ensures
        r@ == s@,
{
    let n = s.unicode_len();
    let mut r: Vec<char> = Vec::new();
    let mut i: usize = 0;
    while i < n
        invariant
            n == s@.len(),
            i <= n,
            r@ == s@.subrange(0, i as int),
        decreases n - i,
    {
        r.push(s.get_char(i));
        proof {
            assert(r@ =~= s@.subrange(0, i + 1));
        }
        i = i + 1;
    }
    proof {
        assert(s@.subrange(0, n as int) =~= s@);
    }
    r
}

/// The decimal text of a list index.
pub fn index_segment(n: usize) -> (r: String)
    ensures
        r@ == decimal(n as nat),
{
    let mut cs: Vec<char> = Vec::new();
    push_decimal(n, &mut cs);
    proof {
        assert(cs@ =~= decimal(n as nat));
    }
    string_from_chars(cs)
}

/// The list index that a segment denotes: canonical decimal text of a `usize`.
pub fn parse_index(s: &str) -> (r: Option<usize>)
    ensures
        r matches Some(v) ==> segment_index(s@) == Some(v as nat),
        r is None ==> segment_index(s@) is None,
{
    let cs = chars_of(s);
    let n = cs.len();
    if n == 0 {
        return None;
    }
    if n > 1 && cs[0] == '0' {
        return None;
    }
    let mut v: usize = 0;
    let mut i: usize = 0;
    while i < n
        invariant
            n == cs@.len(),
            cs@ == s@,
            i <= n,
            all_digits(cs@.subrange(0, i as int)),
            v as nat == digits_value(cs@.subrange(0, i as int)),
        decreases n - i,
    {
        let c = cs[i];
        if !('0' <= c && c <= '9') {
            proof {
                assert(!is_digit(cs@[i as int]));
            }
            return None;
        }
        let d: usize = ((c as u32) - 48) as usize;
        let ghost pre = cs@.subrange(0, i as int);
        let ghost next = cs@.subrange(0, i as int + 1);
        proof {
            assert(next.drop_last() =~= pre);
            assert(next.last() == c);
            assert forall|k: int| 0 <= k < next.len() implies is_digit(#[trigger] next[k]) by {
                if k < i {
                    assert(next[k] == pre[k]);
                }
            }
        }
        match v.checked_mul(10) {
            Some(m) => match m.checked_add(d) {
                Some(w) => {
                    v = w;
                },
                None => {
                    proof {
                        if all_digits(cs@) {
                            lemma_value_prefix_bound(cs@, i as int + 1);
                        }
                    }
                    return None;
                },
            },
            None => {
                proof {
                    if all_digits(cs@) {
                        lemma_value_prefix_bound(cs@, i as int + 1);
                    }
                }
                return None;
            },
        }
        i = i + 1;
    }
    proof {
        assert(cs@.subrange(0, n as int) =~= cs@);
    }
    Some(v)
}

/// The value of a digit string is at least that of each of its prefixes.
proof fn lemma_value_prefix_bound(s: Seq<char>, k: int)
    requires
        0 <= k <= s.len(),
        all_digits(s),
    ensures
        digits_value(s) >= digits_value(s.subrange(0, k)),
    decreases s.len(),
{
    if k < s.len() {
        assert(s.drop_last() =~= s.subrange(0, s.len() - 1));
        assert forall|i: int| 0 <= i < s.drop_last().len() implies is_digit(
            #[trigger] s.drop_last()[i],
        ) by {
            assert(s.drop_last()[i] == s[i]);
        }
        lemma_value_prefix_bound(s.drop_last(), k);
        assert(s.drop_last().subrange(0, k) =~= s.subrange(0, k));
    } else {
        assert(s.subrange(0, k) =~= s);
    }
}

/// No `[` and no `]`.
pub open spec fn bracket_free(s: Seq<char>) -> bool {
    forall|i: int| 0 <= i < s.len() ==> #[trigger] s[i] != '[' && s[i] != ']'
}

/// A path that names a form field: a base and segments, none holding a bracket.
pub open spec fn is_valid_path(path: PathView) -> bool {
    &&& path.len() > 0
    &&& forall|i: int| 0 <= i < path.len() ==> bracket_free(#[trigger] path[i])
}

/// `[s0][s1]...` for the given segments.
pub open spec fn bracketed(segs: PathView) -> Seq<char>
    decreases segs.len(),
{
    if segs.len() == 0 {
        Seq::empty()
    } else {
        seq!['['] + segs[0] + seq![']'] + bracketed(segs.drop_first())
    }
}

/// The field name of a path: its base followed by each segment in brackets.
pub open spec fn encode_name(path: PathView) -> Seq<char>
    recommends
        path.len() > 0,
{
    path[0] + bracketed(path.drop_first())
}

/// Where `c` first occurs in `s`.
pub open spec fn first_index(s: Seq<char>, c: char) -> Option<nat>
    decreases s.len(),
{
    if s.len() == 0 {
        None
    } else if s[0] == c {
        Some(0)
    } else {
        match first_index(s.drop_first(), c) {
            Some(i) => Some(i + 1),
            None => None,
        }
    }
}

/// The segments of a text of the form `[s0][s1]...`.
pub open spec fn parse_segments(s: Seq<char>) -> Option<PathView>
    decreases s.len(),
{
    if s.len() == 0 {
        Some(Seq::empty())
    } else if s[0] != '[' {
        None
    } else {
        let t = s.drop_first();
        match first_index(t, ']') {
            None => None,
            Some(j) => {
                let seg = t.take(j as int);
                if j >= t.len() || !bracket_free(seg) {
                    None
                } else {
                    match parse_segments(t.skip((j + 1) as int)) {
                        Some(rest) => Some(seq![seg] + rest),
                        None => None,
                    }
                }
            },
        }
    }
}

/// The path that a field name spells, if it spells one.
pub open spec fn parse_name_spec(s: Seq<char>) -> Option<PathView> {
    match first_index(s, '[') {
        None => if bracket_free(s) {
            Some(seq![s])
        } else {
            None
        },
        Some(b) => {
            let base = s.take(b as int);
            if !bracket_free(base) {
                None
            } else {
                match parse_segments(s.skip(b as int)) {
                    Some(segs) => Some(seq![base] + segs),
                    None => None,
                }
            }
        },
    }
}

pub proof fn lemma_first_index(s: Seq<char>, c: char)
    ensures
        first_index(s, c) matches Some(i) ==> i < s.len() && s[i as int] == c && forall|k: int|
            0 <= k < i ==> s[k] != c,
        first_index(s, c) is None ==> forall|k: int| 0 <= k < s.len() ==> s[k] != c,
    decreases s.len(),
{
    if s.len() > 0 && s[0] != c {
        lemma_first_index(s.drop_first(), c);
        if first_index(s, c) is None {
            assert forall|k: int| 0 <= k < s.len() implies s[k] != c by {
                if k > 0 {
                    assert(s[k] == s.drop_first()[k - 1]);
                }
            }
        } else {
            let i = first_index(s, c)->Some_0;
            assert forall|k: int| 0 <= k < i implies s[k] != c by {
                if k > 0 {
                    assert(s[k] == s.drop_first()[k - 1]);
                }
            }
        }
    }
}

/// The first occurrence is found where every earlier character differs.
pub proof fn lemma_first_index_at(s: Seq<char>, c: char, i: int)
    requires
        0 <= i <= s.len(),
        forall|k: int| 0 <= k < i ==> s[k] != c,
    ensures
        i < s.len() && s[i] == c ==> first_index(s, c) == Some(i as nat),
        i == s.len() ==> first_index(s, c) is None,
{
    lemma_first_index(s, c);
}

proof fn lemma_parse_bracketed(segs: PathView)
    requires
        forall|i: int| 0 <= i < segs.len() ==> bracket_free(#[trigger] segs[i]),
    ensures
        parse_segments(bracketed(segs)) == Some(segs),
    decreases segs.len(),
{
    if segs.len() > 0 {
        let seg = segs[0];
        let rest = segs.drop_first();
        assert forall|i: int| 0 <= i < rest.len() implies bracket_free(#[trigger] rest[i]) by {
            assert(rest[i] == segs[i + 1]);
        }
        lemma_parse_bracketed(rest);
        let s = bracketed(segs);
        let t = s.drop_first();
        assert(t =~= seg + seq![']'] + bracketed(rest));
        assert(bracket_free(seg));
        assert forall|k: int| 0 <= k < seg.len() implies t[k] != ']' by {
            assert(t[k] == seg[k]);
        }
        lemma_first_index_at(t, ']', seg.len() as int);
        assert(t.take(seg.len() as int) =~= seg);
        assert(t.skip((seg.len() + 1) as int) =~= bracketed(rest));
        assert(seq![seg] + rest =~= segs);
    } else {
        assert(bracketed(segs) =~= Seq::<char>::empty());
    }
}

/// Parsing the name of a valid path gives that path back.
pub proof fn lemma_parse_encoded_name(path: PathView)
    requires
        is_valid_path(path),
    ensures
        parse_name_spec(encode_name(path)) == Some(path),
{
    let base = path[0];
    let segs = path.drop_first();
    assert forall|i: int| 0 <= i < segs.len() implies bracket_free(#[trigger] segs[i]) by {
        assert(segs[i] == path[i + 1]);
    }
    assert(bracket_free(path[0]));
    lemma_parse_bracketed(segs);
    let s = encode_name(path);
    if segs.len() == 0 {
        assert(bracketed(segs) =~= Seq::<char>::empty());
        assert(s =~= base);
        lemma_first_index_at(s, '[', s.len() as int);
        assert(seq![s] =~= path);
    } else {
        assert(bracketed(segs) =~= seq!['['] + segs[0] + seq![']'] + bracketed(segs.drop_first()));
        assert forall|k: int| 0 <= k < base.len() implies s[k] != '[' by {
            assert(s[k] == base[k]);
        }
        assert(s[base.len() as int] == '[');
        lemma_first_index_at(s, '[', base.len() as int);
        assert(s.take(base.len() as int) =~= base);
        assert(s.skip(base.len() as int) =~= bracketed(segs));
        assert(seq![base] + segs =~= path);
    }
}

/// Appending one bracketed segment to the end.
proof fn lemma_bracketed_push(segs: PathView, seg: Seq<char>)
    ensures
        bracketed(segs.push(seg)) == bracketed(segs) + seq!['['] + seg + seq![']'],
    decreases segs.len(),
{
    if segs.len() == 0 {
        assert(segs.push(seg).drop_first() =~= Seq::<Seq<char>>::empty());
        assert(bracketed(Seq::<Seq<char>>::empty()) =~= Seq::<char>::empty());
        assert(bracketed(segs.push(seg)) =~= seq!['['] + seg + seq![']']);
        assert(bracketed(segs) =~= Seq::<char>::empty());
    } else {
        lemma_bracketed_push(segs.drop_first(), seg);
        assert(segs.push(seg).drop_first() =~= segs.drop_first().push(seg));
        assert(bracketed(segs.push(seg)) =~= bracketed(segs) + seq!['['] + seg + seq![']']);
    }
}

/// The views of a sequence of strings.
pub open spec fn strings_view(v: Seq<String>) -> PathView {
    v.map_values(|s: String| s@)
}

/// `name[seg]`: the field name of a child of `name`.
pub fn child_name(name: &str, seg: &str) -> (r: String)
    ensures
        r@ == name@ + seq!['['] + seg@ + seq![']'],
{
    let mut r = name.to_owned();
    r.append("[");
    r.append(seg);
    r.append("]");
    proof {
        reveal_strlit("[");
        reveal_strlit("]");
        assert(r@ =~= name@ + seq!['['] + seg@ + seq![']']);
    }
    r
}

/// The field name of a path.
pub fn encode_path(path: &Vec<String>) -> (r: String)
    requires
        path.len() > 0,
    ensures
        r@ == encode_name(strings_view(path@)),
{
    let ghost p = strings_view(path@);
    let mut r = path[0].clone();
    let mut i: usize = 1;
    proof {
        assert(p.subrange(1, 1) =~= Seq::<Seq<char>>::empty());
        assert(bracketed(p.subrange(1, 1)) =~= Seq::<char>::empty());
        assert(r@ =~= p[0] + bracketed(p.subrange(1, 1)));
    }
    while i < path.len()
        invariant
            p == strings_view(path@),
            1 <= i <= path.len(),
            r@ == p[0] + bracketed(p.subrange(1, i as int)),
        decreases path.len() - i,
    {
        let next = child_name(r.as_str(), path[i].as_str());
        proof {
            lemma_bracketed_push(p.subrange(1, i as int), p[i as int]);
            assert(p.subrange(1, i as int).push(p[i as int]) =~= p.subrange(1, i as int + 1));
            assert(next@ =~= p[0] + bracketed(p.subrange(1, i as int + 1)));
        }
        r = next;
        i = i + 1;
    }
    proof {
        assert(p.subrange(1, i as int) =~= p.drop_first());
    }
    r
}

/// Where `c` first occurs in `cs` at or after `from`.
fn find_from(cs: &Vec<char>, from: usize, c: char) -> (r: Option<usize>)
    requires
        from <= cs.len(),
    ensures
        r matches Some(j) ==> from <= j < cs.len() && first_index(cs@.skip(from as int), c)
            == Some((j - from) as nat),
        r is None ==> first_index(cs@.skip(from as int), c) is None,
{
    let ghost t = cs@.skip(from as int);
    let mut j = from;
    while j < cs.len()
        invariant
            from <= j <= cs.len(),
            t == cs@.skip(from as int),
            forall|k: int| 0 <= k < j - from ==> t[k] != c,
        decreases cs.len() - j,
    {
        if cs[j] == c {
            proof {
                lemma_first_index_at(t, c, j - from);
            }
            return Some(j);
        }
        j = j + 1;
    }
    proof {
        lemma_first_index_at(t, c, j - from);
    }
    None
}

/// Whether `cs[from..to]` holds no bracket.
fn range_bracket_free(cs: &Vec<char>, from: usize, to: usize) -> (r: bool)
    requires
        from <= to <= cs.len(),
    ensures
        r == bracket_free(cs@.subrange(from as int, to as int)),
{
    let mut k = from;
    while k < to
        invariant
            from <= k <= to <= cs.len(),
            forall|m: int| from <= m < k ==> #[trigger] cs@[m] != '[' && cs@[m] != ']',
        decreases to - k,
    {
        if cs[k] == '[' || cs[k] == ']' {
            proof {
                let s = cs@.subrange(from as int, to as int);
                assert(s[k - from] == cs@[k as int]);
            }
            return false;
        }
        k = k + 1;
    }
    proof {
        let s = cs@.subrange(from as int, to as int);
        assert forall|i: int| 0 <= i < s.len() implies #[trigger] s[i] != '[' && s[i] != ']' by {
            assert(s[i] == cs@[from + i]);
        }
    }
    true
}

/// The text of `cs[from..to]`.
fn text_of(cs: &Vec<char>, from: usize, to: usize) -> (r: String)
    requires
        from <= to <= cs.len(),
    ensures
        r@ == cs@.subrange(from as int, to as int),
{
    let mut out: Vec<char> = Vec::new();
    let mut k = from;
    while k < to
        invariant
            from <= k <= to <= cs.len(),
            out@ == cs@.subrange(from as int, k as int),
        decreases to - k,
    {
        out.push(cs[k]);
        proof {
            assert(out@ =~= cs@.subrange(from as int, k + 1));
        }
        k = k + 1;
    }
    string_from_chars(out)
}

fn parse_segments_from(cs: &Vec<char>, i: usize) -> (r: Option<Vec<String>>)
    requires
        i <= cs.len(),
    ensures
        r matches Some(v) ==> parse_segments(cs@.skip(i as int)) == Some(strings_view(v@)),
        r is None ==> parse_segments(cs@.skip(i as int)) is None,
    decreases cs.len() - i,
{
    let ghost s = cs@.skip(i as int);
    if i == cs.len() {
        proof {
            assert(s.len() == 0);
        }
        let v: Vec<String> = Vec::new();
        proof {
            assert(strings_view(v@) =~= Seq::<Seq<char>>::empty());
        }
        return Some(v);
    }
    if cs[i] != '[' {
        return None;
    }
    let ghost t = s.drop_first();
    proof {
        assert(t =~= cs@.skip(i + 1));
    }
    match find_from(cs, i + 1, ']') {
        None => None,
        Some(j) => {
            let ghost jj = (j - (i + 1)) as nat;
            proof {
                assert(t.take(jj as int) =~= cs@.subrange(i + 1, j as int));
                assert(t.skip((jj + 1) as int) =~= cs@.skip(j + 1));
            }
            if !range_bracket_free(cs, i + 1, j) {
                return None;
            }
            let seg = text_of(cs, i + 1, j);
            match parse_segments_from(cs, j + 1) {
                None => None,
                Some(rest) => {
                    let mut v: Vec<String> = Vec::new();
                    v.push(seg);
                    let mut k: usize = 0;
                    while k < rest.len()
                        invariant
                            v@.len() == k + 1,
                            v@[0]@ == t.take(jj as int),
                            forall|m: int| 1 <= m <= k ==> #[trigger] v@[m]@ == rest@[m - 1]@,
                            k <= rest.len(),
                        decreases rest.len() - k,
                    {
                        v.push(rest[k].clone());
                        k = k + 1;
                    }
                    proof {
                        assert(strings_view(v@) =~= seq![t.take(jj as int)] + strings_view(
                            rest@,
                        ));
                    }
                    Some(v)
                },
            }
        },
    }
}

/// The path a field name spells: `Some` exactly where the name has the form
/// `base[s1]...[sn]` with no bracket inside the base or any segment.
pub fn parse_name(name: &str) -> (r: Option<Vec<String>>)
    ensures
        r matches Some(v) ==> parse_name_spec(name@) == Some(strings_view(v@)),
        r is None ==> parse_name_spec(name@) is None,
{
    let cs = chars_of(name);
    let ghost s = cs@;
    match find_from(&cs, 0, '[') {
        None => {
            proof {
                assert(cs@.skip(0) =~= s);
            }
            if range_bracket_free(&cs, 0, cs.len()) {
                proof {
                    assert(cs@.subrange(0, cs.len() as int) =~= s);
                }
                let mut v: Vec<String> = Vec::new();
                v.push(name.to_owned());
                proof {
                    assert(strings_view(v@) =~= seq![s]);
                }
                Some(v)
            } else {
                proof {
                    assert(cs@.subrange(0, cs.len() as int) =~= s);
                }
                None
            }
        },
        Some(b) => {
            proof {
                assert(cs@.skip(0) =~= s);
                assert(s.take(b as int) =~= cs@.subrange(0, b as int));
            }
            if !range_bracket_free(&cs, 0, b) {
                return None;
            }
            let base = text_of(&cs, 0, b);
            match parse_segments_from(&cs, b) {
                None => None,
                Some(segs) => {
                    let mut v: Vec<String> = Vec::new();
                    v.push(base);
                    let mut k: usize = 0;
                    while k < segs.len()
                        invariant
                            v@.len() == k + 1,
                            v@[0]@ == s.take(b as int),
                            forall|m: int| 1 <= m <= k ==> #[trigger] v@[m]@ == segs@[m - 1]@,
                            k <= segs.len(),
                        decreases segs.len() - k,
                    {
                        v.push(segs[k].clone());
                        k = k + 1;
                    }
                    proof {
                        assert(strings_view(v@) =~= seq![s.take(b as int)] + strings_view(segs@));
                    }
                    Some(v)
                },
            }
        },
    }
}

/// Whether a text holds no bracket.
pub(crate) fn text_bracket_free(s: &String) -> (r: bool)
    ensures
        r == bracket_free(s@),
{
    let cs = chars_of(s.as_str());
    let n = cs.len();
    proof {
        assert(cs@.subrange(0, n as int) =~= s@);
    }
    range_bracket_free(&cs, 0, n)
}

} // verus!
