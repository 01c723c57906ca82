//! Character sequences: the model every parser of this crate is stated over,
//! and the executable operations on `&[char]` that realise it.
use vstd::prelude::*;
use vstd::slice::slice_subrange;

verus! {

/// `String::push`: the string afterwards is the string before with the
/// character at its end.
pub assume_specification[ String::push ](s: &mut String, c: char)
    ensures
        final(s)@ == old(s)@.push(c),
;

/// The characters that carry the Unicode property `White_Space`.
pub open spec fn is_whitespace(c: char) -> bool {
    let n = c as u32;
    ||| 0x09 <= n <= 0x0D
    ||| n == 0x20
    ||| n == 0x85
    ||| n == 0xA0
    ||| n == 0x1680
    ||| 0x2000 <= n <= 0x200A
    ||| n == 0x2028
    ||| n == 0x2029
    ||| n == 0x202F
    ||| n == 0x205F
    ||| n == 0x3000
}

/// The double quote that may enclose an attribute value.
pub open spec fn is_quote(c: char) -> bool {
    c == '"'
}

/// The predicate that holds of whitespace.
pub open spec fn whitespace() -> spec_fn(char) -> bool {
    |c: char| is_whitespace(c)
}

/// The predicate that holds of the double quote.
pub open spec fn quote() -> spec_fn(char) -> bool {
    |c: char| is_quote(c)
}

/// `s` without its longest prefix of characters that satisfy `p`.
pub open spec fn strip_start(s: Seq<char>, p: spec_fn(char) -> bool) -> Seq<char>
    decreases s.len(),
{
    if s.len() > 0 && p(s.first()) {
        strip_start(s.drop_first(), p)
    } else {
        s
    }
}

/// `s` without its longest suffix of characters that satisfy `p`.
pub open spec fn strip_end(s: Seq<char>, p: spec_fn(char) -> bool) -> Seq<char>
    decreases s.len(),
{
    if s.len() > 0 && p(s.last()) {
        strip_end(s.drop_last(), p)
    } else {
        s
    }
}

/// `s` with the characters that satisfy `p` removed from both ends.
pub open spec fn strip(s: Seq<char>, p: spec_fn(char) -> bool) -> Seq<char> {
    strip_end(strip_start(s, p), p)
}

/// `s` without surrounding whitespace.
pub open spec fn trim(s: Seq<char>) -> Seq<char> {
    strip(s, whitespace())
}

/// `s` without the double quotes at its two ends.
pub open spec fn unquote(s: Seq<char>) -> Seq<char> {
    strip(s, quote())
}

/// Whether the character is whitespace.
pub fn is_space(c: char) -> (r: bool)
    ensures
        r == is_whitespace(c),
{
    let n: u32 = c as u32;
    (0x09 <= n && n <= 0x0D) || n == 0x20 || n == 0x85 || n == 0xA0 || n == 0x1680 || (0x2000 <= n
        && n <= 0x200A) || n == 0x2028 || n == 0x2029 || n == 0x202F || n == 0x205F || n == 0x3000
}

/// The characters of `s`, in order.
pub fn to_chars(s: &str) -> (v: Vec<char>)
    ensures
        v@ == s@,
{
    let mut v: Vec<char> = Vec::new();
    for c in it: s.chars()
        invariant
            v@ == it.seq().take(it.index() as int),
            it.seq() == s@,
    {
        v.push(c);
    }
    v
}

/// Whether two strings hold the same characters.
pub fn same_text(a: &str, b: &str) -> (r: bool)
    ensures
        r == (a@ == b@),
{
    let x = to_chars(a);
    let y = to_chars(b);
    if x.len() != y.len() {
        return false;
    }
    let mut i: usize = 0;
    while i < x.len()
        invariant
            i <= x.len(),
            x.len() == y.len(),
            x@ == a@,
            y@ == b@,
            forall|j: int| 0 <= j < i ==> x@[j] == y@[j],
        decreases x.len() - i,
    {
        if x[i] != y[i] {
            return false;
        }
        i += 1;
    }
    assert(x@ =~= y@);
    true
}

/// The string made of the characters of `s`.
pub fn to_string(s: &[char]) -> (r: String)
    ensures
        r@ == s@,
{
    let mut r = String::new();
    let mut i: usize = 0;
    while i < s.len()
        invariant
            i <= s.len(),
            r@ == s@.take(i as int),
        decreases s.len() - i,
    {
        r.push(s[i]);
        i += 1;
    }
    r
}

/// After `k` leading characters that satisfy `p`, followed by one that does
/// not or by the end, what `strip_start` leaves starts at `k`.
pub proof fn lemma_strip_start(s: Seq<char>, p: spec_fn(char) -> bool, k: int)
    requires
        0 <= k <= s.len(),
        forall|i: int| 0 <= i < k ==> p(#[trigger] s[i]),
        k < s.len() ==> !p(s[k]),
    ensures
        strip_start(s, p) == s.skip(k),
    decreases k,
{
    if k == 0 {
        assert(s.skip(0) =~= s);
    } else {
        let t = s.drop_first();
        assert forall|i: int| 0 <= i < k - 1 implies p(#[trigger] t[i]) by {
            assert(t[i] == s[i + 1]);
        }
        lemma_strip_start(t, p, k - 1);
        assert(t.skip(k - 1) =~= s.skip(k));
    }
}

/// Before the trailing characters from `k` on, which all satisfy `p`, and
/// after one that does not or the start, what `strip_end` leaves ends at `k`.
pub proof fn lemma_strip_end(s: Seq<char>, p: spec_fn(char) -> bool, k: int)
    requires
        0 <= k <= s.len(),
        forall|i: int| k <= i < s.len() ==> p(#[trigger] s[i]),
        0 < k ==> !p(s[k - 1]),
    ensures
        strip_end(s, p) == s.take(k),
    decreases s.len() - k,
{
    if k == s.len() {
        assert(s.take(k) =~= s);
    } else {
        let t = s.drop_last();
        lemma_strip_end(t, p, k);
        assert(t.take(k) =~= s.take(k));
    }
}

/// `s` without surrounding whitespace.
pub fn trim_slice<'a>(s: &'a [char]) -> (r: &'a [char])
    ensures
        r@ == trim(s@),
{
    let mut a: usize = 0;
    while a < s.len() && is_space(s[a])
        invariant
            a <= s.len(),
            forall|i: int| 0 <= i < a ==> is_whitespace(#[trigger] s@[i]),
        decreases s.len() - a,
    {
        a += 1;
    }
    let mut b: usize = s.len();
    while b > a && is_space(s[b - 1])
        invariant
            a <= b <= s.len(),
            forall|i: int| b <= i < s.len() ==> is_whitespace(#[trigger] s@[i]),
        decreases b,
    {
        b -= 1;
    }
    proof {
        let p = whitespace();
        lemma_strip_start(s@, p, a as int);
        let t = s@.skip(a as int);
        assert forall|i: int| b - a <= i < t.len() implies p(#[trigger] t[i]) by {
            assert(t[i] == s@[i + a]);
        }
        lemma_strip_end(t, p, b - a);
        assert(t.take(b - a) =~= s@.subrange(a as int, b as int));
    }
    slice_subrange(s, a, b)
}

/// `s` without the double quotes at its two ends.
pub fn unquote_slice<'a>(s: &'a [char]) -> (r: &'a [char])
    ensures
        r@ == unquote(s@),
{
    let mut a: usize = 0;
    while a < s.len() && s[a] == '"'
        invariant
            a <= s.len(),
            forall|i: int| 0 <= i < a ==> is_quote(#[trigger] s@[i]),
        decreases s.len() - a,
    {
        a += 1;
    }
    let mut b: usize = s.len();
    while b > a && s[b - 1] == '"'
        invariant
            a <= b <= s.len(),
            forall|i: int| b <= i < s.len() ==> is_quote(#[trigger] s@[i]),
        decreases b,
    {
        b -= 1;
    }
    proof {
        let p = quote();
        lemma_strip_start(s@, p, a as int);
        let t = s@.skip(a as int);
        assert forall|i: int| b - a <= i < t.len() implies p(#[trigger] t[i]) by {
            assert(t[i] == s@[i + a]);
        }
        lemma_strip_end(t, p, b - a);
        assert(t.take(b - a) =~= s@.subrange(a as int, b as int));
    }
    slice_subrange(s, a, b)
}

/// The predicate that holds of `c` alone.
pub open spec fn equals(c: char) -> spec_fn(char) -> bool {
    |x: char| x == c
}

/// The index of the first character of `s` that satisfies `p`, or the length
/// of `s` where none does.
pub open spec fn position(s: Seq<char>, p: spec_fn(char) -> bool) -> int
    decreases s.len(),
{
    if s.len() == 0 || p(s.first()) {
        0
    } else {
        1 + position(s.drop_first(), p)
    }
}

/// The pieces of `s` between the occurrences of `sep`: one more piece than
/// there are separators, so never none.
pub open spec fn split(s: Seq<char>, sep: char) -> Seq<Seq<char>>
    decreases s.len(),
{
    let i = position(s, equals(sep));
    if 0 <= i < s.len() {
        seq![s.take(i)] + split(s.skip(i + 1), sep)
    } else {
        seq![s]
    }
}

/// What each piece of a split holds.
pub open spec fn views(parts: Seq<&[char]>) -> Seq<Seq<char>> {
    parts.map_values(|p: &[char]| p@)
}

/// `position` is the one index before which nothing satisfies `p` and at
/// which either something does or `s` ends.
pub proof fn lemma_position(s: Seq<char>, p: spec_fn(char) -> bool, k: int)
    requires
        0 <= k <= s.len(),
        forall|i: int| 0 <= i < k ==> !p(#[trigger] s[i]),
        k < s.len() ==> p(s[k]),
    ensures
        position(s, p) == k,
    decreases k,
{
    if k > 0 {
        let t = s.drop_first();
        assert forall|i: int| 0 <= i < k - 1 implies !p(#[trigger] t[i]) by {
            assert(t[i] == s[i + 1]);
        }
        lemma_position(t, p, k - 1);
    }
}

/// The index of the first `c` in `s`, or the length of `s` where it has none.
pub fn find(s: &[char], c: char) -> (k: usize)
    ensures
        k == position(s@, equals(c)),
        k <= s@.len(),
{
    let mut k: usize = 0;
    while k < s.len() && s[k] != c
        invariant
            k <= s.len(),
            forall|i: int| 0 <= i < k ==> #[trigger] s@[i] != c,
        decreases s.len() - k,
    {
        k += 1;
    }
    proof {
        lemma_position(s@, equals(c), k as int);
    }
    k
}

/// The pieces of `s` between the occurrences of `sep`.
pub fn split_slice<'a>(s: &'a [char], sep: char) -> (parts: Vec<&'a [char]>)
    ensures
        views(parts@) == split(s@, sep),
{
    let mut parts: Vec<&'a [char]> = Vec::new();
    let mut start: usize = 0;
    proof {
        assert(s@.skip(0) =~= s@);
        assert(views(parts@) + split(s@, sep) =~= split(s@, sep));
    }
    loop
        invariant
            start <= s.len(),
            views(parts@) + split(s@.skip(start as int), sep) == split(s@, sep),
        decreases s.len() - start,
    {
        let rest = slice_subrange(s, start, s.len());
        let k = find(rest, sep);
        proof {
            assert(rest@ =~= s@.skip(start as int));
        }
        let piece = slice_subrange(rest, 0, k);
        let ghost before = parts@;
        parts.push(piece);
        proof {
            assert(views(parts@) =~= views(before) + seq![piece@]);
            assert(piece@ =~= rest@.take(k as int));
        }
        if k == rest.len() {
            proof {
                assert(rest@.take(k as int) =~= rest@);
                assert(split(rest@, sep) =~= seq![rest@]);
            }
            return parts;
        }
        proof {
            assert(rest@.skip(k + 1) =~= s@.skip(start + k + 1));
            assert(views(before) + (seq![piece@] + split(rest@.skip(k + 1), sep)) =~= views(
                parts@,
            ) + split(rest@.skip(k + 1), sep));
        }
        start = start + k + 1;
    }
}

/// Every character of `s` satisfies `p`.
pub open spec fn all(s: Seq<char>, p: spec_fn(char) -> bool) -> bool {
    forall|i: int| 0 <= i < s.len() ==> p(#[trigger] s[i])
}

/// No character of `s` satisfies `p`.
pub open spec fn none(s: Seq<char>, p: spec_fn(char) -> bool) -> bool {
    forall|i: int| 0 <= i < s.len() ==> !p(#[trigger] s[i])
}

/// The pieces written one after the other with `sep` between them.
pub open spec fn concat_with(pieces: Seq<Seq<char>>, sep: char) -> Seq<char>
    decreases pieces.len(),
{
    if pieces.len() == 0 {
        Seq::empty()
    } else if pieces.len() == 1 {
        pieces.first()
    } else {
        pieces.first() + seq![sep] + concat_with(pieces.drop_first(), sep)
    }
}

/// A piece without separator is the one piece of its split.
pub proof fn lemma_split_one(piece: Seq<char>, sep: char)
    requires
        none(piece, equals(sep)),
    ensures
        split(piece, sep) == seq![piece],
{
    lemma_position(piece, equals(sep), piece.len() as int);
}

/// A piece without separator, a separator and a rest split into that piece
/// and the pieces of the rest.
pub proof fn lemma_split_first(piece: Seq<char>, rest: Seq<char>, sep: char)
    requires
        none(piece, equals(sep)),
    ensures
        split(piece + seq![sep] + rest, sep) == seq![piece] + split(rest, sep),
{
    let whole = piece + seq![sep] + rest;
    let k = piece.len() as int;
    assert forall|i: int| 0 <= i < k implies !equals(sep)(#[trigger] whole[i]) by {
        assert(whole[i] == piece[i]);
    }
    assert(whole[k] == sep);
    lemma_position(whole, equals(sep), k);
    assert(whole.take(k) =~= piece);
    assert(whole.skip(k + 1) =~= rest);
}

/// Pieces without separator, written with the separator between them, split
/// into the same pieces.
pub proof fn lemma_split_concat(pieces: Seq<Seq<char>>, sep: char)
    requires
        pieces.len() >= 1,
        forall|i: int| 0 <= i < pieces.len() ==> none(#[trigger] pieces[i], equals(sep)),
    ensures
        split(concat_with(pieces, sep), sep) == pieces,
    decreases pieces.len(),
{
    if pieces.len() == 1 {
        lemma_split_one(pieces.first(), sep);
        assert(seq![pieces.first()] =~= pieces);
    } else {
        let rest = pieces.drop_first();
        assert forall|i: int| 0 <= i < rest.len() implies none(#[trigger] rest[i], equals(sep)) by {
            assert(rest[i] == pieces[i + 1]);
        }
        lemma_split_concat(rest, sep);
        lemma_split_first(pieces.first(), concat_with(rest, sep), sep);
        assert(seq![pieces.first()] + rest =~= pieces);
    }
}

/// Whitespace around a middle that neither starts nor ends with whitespace
/// is what trimming takes away.
pub proof fn lemma_trim_padded(lead: Seq<char>, middle: Seq<char>, trail: Seq<char>)
    requires
        all(lead, whitespace()),
        all(trail, whitespace()),
        middle.len() > 0,
        !is_whitespace(middle.first()),
        !is_whitespace(middle.last()),
    ensures
        trim(lead + middle + trail) == middle,
{
    let s = lead + middle + trail;
    let a = lead.len() as int;
    let p = whitespace();
    assert forall|i: int| 0 <= i < a implies p(#[trigger] s[i]) by {
        assert(s[i] == lead[i]);
    }
    assert(s[a] == middle.first());
    lemma_strip_start(s, p, a);
    let t = s.skip(a);
    assert(t =~= middle + trail);
    let b = middle.len() as int;
    assert forall|i: int| b <= i < t.len() implies p(#[trigger] t[i]) by {
        assert(t[i] == trail[i - b]);
    }
    assert(t[b - 1] == middle.last());
    lemma_strip_end(t, p, b);
    assert(t.take(b) =~= middle);
}

/// Trimming whitespace alone leaves nothing.
pub proof fn lemma_trim_blank(s: Seq<char>)
    requires
        all(s, whitespace()),
    ensures
        trim(s).len() == 0,
{
    lemma_strip_start(s, whitespace(), s.len() as int);
    assert(s.skip(s.len() as int) =~= Seq::<char>::empty());
}

/// Stripping changes nothing where neither end satisfies `p`.
pub proof fn lemma_strip_nothing(s: Seq<char>, p: spec_fn(char) -> bool)
    requires
        s.len() > 0 ==> !p(s.first()) && !p(s.last()),
    ensures
        strip(s, p) == s,
{
    lemma_strip_start(s, p, 0);
    assert(s.skip(0) =~= s);
    lemma_strip_end(s, p, s.len() as int);
    assert(s.take(s.len() as int) =~= s);
}

} // verus!
