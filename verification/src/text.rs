//! Text primitives: strings seen as sequences of characters, their order,
//! their `/`-separated segments, and the number formats used in messages.

use vstd::prelude::*;
use vstd::utf8::*;

verus! {

/// `String::push` appends one character.
pub assume_specification[ String::push ](s: &mut String, c: char)
    ensures
        final(s)@ == old(s)@.push(c),
;

/// What the `{:?}` format of a string slice prints.
pub uninterp spec fn debug_text(s: Seq<char>) -> Seq<char>;

/// The `Debug` format of `str`: quoted, with special characters escaped. The
/// escape table is that of the standard library, so the result is only named.
#[verifier::external_body]
pub(crate) fn debug_string(s: &str) -> (r: String)
    ensures
        r@ == debug_text(s@),
{
    format!("{:?}", s)
}

/// What `str::to_lowercase` gives.
pub uninterp spec fn lowercase_text(s: Seq<char>) -> Seq<char>;

/// `str::to_lowercase`: the Unicode lower-case mapping. The mapping is that
/// of the standard library, so the result is only named.
#[verifier::external_body]
pub(crate) fn lowercase_string(s: &str) -> (r: String)
    ensures
        r@ == lowercase_text(s@),
{
    s.to_lowercase()
}

/// The views of a sequence of strings.
pub open spec fn texts(v: Seq<String>) -> Seq<Seq<char>> {
    Seq::new(v.len(), |i: int| v[i]@)
}

/// The view of an optional string.
pub open spec fn opt_text(o: Option<String>) -> Option<Seq<char>> {
    match o {
        Some(s) => Some(s@),
        None => None,
    }
}

/// The characters of a string, as a vector.
pub fn chars_of(s: &str) -> (r: Vec<char>)
    ensures
        r@ == s@,
{
    let mut out: Vec<char> = Vec::new();
    for c in it: s.chars()
        invariant
            it.seq() == s@,
            out@ == s@.take(it.index()),
    {
        out.push(c);
        assert(s@.take(it.index() + 1) =~= s@.take(it.index()).push(s@[it.index()]));
    }
    assert(s@.take(s@.len() as int) =~= s@);
    out
}

/// The string made of the characters `c[from..to]`.
pub fn string_of(c: &Vec<char>, from: usize, to: usize) -> (r: String)
    requires
        from <= to <= c@.len(),
    ensures
        r@ == c@.subrange(from as int, to as int),
{
    let mut out = String::new();
    let mut i: usize = from;
    while i < to
        invariant
            from <= i <= to <= c@.len(),
            out@ == c@.subrange(from as int, i as int),
        decreases to - i,
    {
        out.push(c[i]);
        assert(c@.subrange(from as int, i + 1) =~= c@.subrange(from as int, i as int).push(c@[i as int]));
        i = i + 1;
    }
    out
}

/// Strict lexicographic order on byte sequences.
pub open spec fn bytes_before(a: Seq<u8>, b: Seq<u8>) -> bool
    decreases a.len(),
{
    if b.len() == 0 {
        false
    } else if a.len() == 0 {
        true
    } else if a[0] != b[0] {
        a[0] < b[0]
    } else {
        bytes_before(a.drop_first(), b.drop_first())
    }
}

/// The order of keys: strings are ordered by their UTF-8 bytes.
pub open spec fn before(a: Seq<char>, b: Seq<char>) -> bool {
    bytes_before(encode_utf8(a), encode_utf8(b))
}

proof fn lemma_bytes_irreflexive(a: Seq<u8>)
    ensures
        !bytes_before(a, a),
    decreases a.len(),
{
    if a.len() > 0 {
        lemma_bytes_irreflexive(a.drop_first());
    }
}

proof fn lemma_bytes_transitive(a: Seq<u8>, b: Seq<u8>, c: Seq<u8>)
    requires
        bytes_before(a, b),
        bytes_before(b, c),
    ensures
        bytes_before(a, c),
    decreases a.len(),
{
    if a.len() > 0 && a[0] == b[0] && b[0] == c[0] {
        lemma_bytes_transitive(a.drop_first(), b.drop_first(), c.drop_first());
    }
}

proof fn lemma_bytes_total(a: Seq<u8>, b: Seq<u8>)
    ensures
        a == b || bytes_before(a, b) || bytes_before(b, a),
    decreases a.len(),
{
    if a.len() == 0 {
        if b.len() == 0 {
            assert(a =~= b);
        }
    } else if b.len() > 0 && a[0] == b[0] {
        lemma_bytes_total(a.drop_first(), b.drop_first());
        if a.drop_first() == b.drop_first() {
            assert(a =~= seq![a[0]] + a.drop_first());
            assert(b =~= seq![b[0]] + b.drop_first());
        }
    }
}

/// Two strings with the same bytes are the same.
pub proof fn lemma_same_bytes(a: Seq<char>, b: Seq<char>)
    requires
        encode_utf8(a) == encode_utf8(b),
    ensures
        a == b,
{
    encode_utf8_decode_utf8(a);
    encode_utf8_decode_utf8(b);
}

/// No string comes before itself.
pub proof fn lemma_before_irreflexive(a: Seq<char>)
    ensures
        !before(a, a),
{
    lemma_bytes_irreflexive(encode_utf8(a));
}

/// The order is transitive.
pub proof fn lemma_before_transitive(a: Seq<char>, b: Seq<char>, c: Seq<char>)
    requires
        before(a, b),
        before(b, c),
    ensures
        before(a, c),
{
    lemma_bytes_transitive(encode_utf8(a), encode_utf8(b), encode_utf8(c));
}

/// Of two different strings one comes first.
pub proof fn lemma_before_total(a: Seq<char>, b: Seq<char>)
    ensures
        a == b || before(a, b) || before(b, a),
{
    lemma_bytes_total(encode_utf8(a), encode_utf8(b));
    if encode_utf8(a) == encode_utf8(b) {
        lemma_same_bytes(a, b);
    }
}

/// Whether two strings are the same.
pub fn same_text(a: &str, b: &str) -> (r: bool)
    ensures
        r == (a@ == b@),
{
    let x: &[u8] = a.as_bytes();
    let y: &[u8] = b.as_bytes();
    if x.len() != y.len() {
        return false;
    }
    let mut i: usize = 0;
    while i < x.len()
        invariant
            i <= x@.len(),
            x@.len() == y@.len(),
            x@ == encode_utf8(a@),
            y@ == encode_utf8(b@),
            forall|j: int| 0 <= j < i ==> x@[j] == y@[j],
        decreases x@.len() - i,
    {
        if x[i] != y[i] {
            return false;
        }
        i = i + 1;
    }
    proof {
        assert(x@ =~= y@);
        lemma_same_bytes(a@, b@);
    }
    true
}

/// Whether `a` comes before `b`.
pub fn text_before(a: &str, b: &str) -> (r: bool)
    ensures
        r == before(a@, b@),
{
    let x: &[u8] = a.as_bytes();
    let y: &[u8] = b.as_bytes();
    let mut i: usize = 0;
    assert(x@.skip(0) =~= x@ && y@.skip(0) =~= y@);
    while i < x.len() && i < y.len() && x[i] == y[i]
        invariant
            i <= x@.len(),
            i <= y@.len(),
            x@ == encode_utf8(a@),
            y@ == encode_utf8(b@),
            before(a@, b@) == bytes_before(x@.skip(i as int), y@.skip(i as int)),
        decreases x@.len() - i,
    {
        assert(x@.skip(i as int).drop_first() =~= x@.skip(i + 1));
        assert(y@.skip(i as int).drop_first() =~= y@.skip(i + 1));
        i = i + 1;
    }
    if i >= y.len() {
        false
    } else if i >= x.len() {
        true
    } else {
        x[i] < y[i]
    }
}

/// Whether the text ends with the given character.
pub open spec fn ends_with_char(s: Seq<char>, c: char) -> bool {
    s.len() > 0 && s.last() == c
}

/// Whether the text starts with `prefix`.
pub open spec fn starts_with_text(s: Seq<char>, prefix: Seq<char>) -> bool {
    prefix.len() <= s.len() && s.take(prefix.len() as int) == prefix
}

/// Whether `part` occurs somewhere in the text.
pub open spec fn contains_text(s: Seq<char>, part: Seq<char>) -> bool {
    exists|i: int| #[trigger] starts_with_text_at(s, part, i)
}

/// Whether `part` occurs in the text at position `i`.
pub open spec fn starts_with_text_at(s: Seq<char>, part: Seq<char>, i: int) -> bool {
    0 <= i <= s.len() - part.len() && s.subrange(i, i + part.len()) == part
}

/// The text without one trailing `/`, if it has one.
pub open spec fn strip_slash(s: Seq<char>) -> Seq<char> {
    if ends_with_char(s, '/') {
        s.drop_last()
    } else {
        s
    }
}

proof fn lemma_encode_concat(a: Seq<char>, b: Seq<char>)
    ensures
        encode_utf8(a + b) == encode_utf8(a) + encode_utf8(b),
    decreases a.len(),
{
    if a.len() == 0 {
        assert(a + b =~= b);
        assert(encode_utf8(a) + encode_utf8(b) =~= encode_utf8(b));
    } else {
        lemma_encode_concat(a.drop_first(), b);
        assert((a + b).drop_first() =~= a.drop_first() + b);
        assert((a + b)[0] == a[0]);
        assert(encode_utf8(a + b) =~= encode_utf8(a) + encode_utf8(b));
    }
}

proof fn lemma_bytes_prefix_before(a: Seq<u8>, b: Seq<u8>)
    requires
        b.len() > 0,
    ensures
        bytes_before(a, a + b),
    decreases a.len(),
{
    if a.len() > 0 {
        lemma_bytes_prefix_before(a.drop_first(), b);
        assert((a + b).drop_first() =~= a.drop_first() + b);
    }
}

/// A proper prefix of a text comes before it.
pub proof fn lemma_prefix_before(a: Seq<char>, b: Seq<char>)
    requires
        starts_with_text(b, a),
        a.len() < b.len(),
    ensures
        before(a, b),
{
    let rest = b.skip(a.len() as int);
    assert(b =~= a + rest);
    lemma_encode_concat(a, rest);
    char_is_scalar(rest[0]);
    assert(encode_scalar(rest[0] as u32).len() > 0);
    assert(encode_utf8(rest).len() > 0);
    lemma_bytes_prefix_before(encode_utf8(a), encode_utf8(rest));
}

/// The `/`-separated segments of a text: one more than it has slashes.
pub open spec fn segments(s: Seq<char>) -> Seq<Seq<char>>
    decreases s.len(),
{
    if s.len() == 0 {
        seq![Seq::<char>::empty()]
    } else {
        let init = segments(s.drop_last());
        if s.last() == '/' {
            init.push(Seq::<char>::empty())
        } else {
            init.drop_last().push(init.last().push(s.last()))
        }
    }
}

/// What follows the last `/` of the text, or all of it.
pub open spec fn last_segment(s: Seq<char>) -> Seq<char> {
    segments(s).last()
}

/// Control characters: the C0 range, DEL, and the C1 range.
pub open spec fn is_control(c: char) -> bool {
    c <= '\u{1f}' || ('\u{7f}' <= c && c <= '\u{9f}')
}

/// The characters with the Unicode property `White_Space`.
pub open spec fn is_whitespace(c: char) -> bool {
    ||| ('\u{9}' <= c && c <= '\u{d}')
    ||| c == ' '
    ||| c == '\u{85}'
    ||| c == '\u{a0}'
    ||| c == '\u{1680}'
    ||| ('\u{2000}' <= c && c <= '\u{200a}')
    ||| c == '\u{2028}'
    ||| c == '\u{2029}'
    ||| c == '\u{202f}'
    ||| c == '\u{205f}'
    ||| c == '\u{3000}'
}

/// Whether every character is whitespace; so is the empty text.
pub open spec fn is_blank(s: Seq<char>) -> bool {
    forall|i: int| 0 <= i < s.len() ==> is_whitespace(#[trigger] s[i])
}

/// Whether `c` is a control character.
pub fn char_is_control(c: char) -> (r: bool)
    ensures
        r == is_control(c),
{
    c <= '\u{1f}' || ('\u{7f}' <= c && c <= '\u{9f}')
}

/// Whether `c` is whitespace.
pub fn char_is_whitespace(c: char) -> (r: bool)
    ensures
        r == is_whitespace(c),
{
    ('\u{9}' <= c && c <= '\u{d}') || c == ' ' || c == '\u{85}' || c == '\u{a0}' || c == '\u{1680}'
        || ('\u{2000}' <= c && c <= '\u{200a}') || c == '\u{2028}' || c == '\u{2029}' || c
        == '\u{202f}' || c == '\u{205f}' || c == '\u{3000}'
}

/// Whether the characters of `c` are all whitespace.
pub fn chars_blank(c: &Vec<char>) -> (r: bool)
    ensures
        r == is_blank(c@),
{
    let mut i: usize = 0;
    while i < c.len()
        invariant
            i <= c@.len(),
            forall|j: int| 0 <= j < i ==> is_whitespace(#[trigger] c@[j]),
        decreases c@.len() - i,
    {
        if !char_is_whitespace(c[i]) {
            assert(!is_whitespace(c@[i as int]));
            return false;
        }
        i = i + 1;
    }
    true
}

/// Whether the text is blank.
pub fn text_blank(s: &str) -> (r: bool)
    ensures
        r == is_blank(s@),
{
    let c = chars_of(s);
    chars_blank(&c)
}

/// Whether a text occurs among the strings.
pub fn text_among(v: &Vec<String>, s: &str) -> (r: bool)
    ensures
        r == texts(v@).contains(s@),
{
    let ghost all = texts(v@);
    let mut i: usize = 0;
    while i < v.len()
        invariant
            i <= v@.len(),
            all == texts(v@),
            forall|j: int| 0 <= j < i ==> #[trigger] all[j] != s@,
        decreases v@.len() - i,
    {
        assert(all[i as int] == v@[i as int]@);
        if same_text(v[i].as_str(), s) {
            return true;
        }
        i = i + 1;
    }
    false
}

/// Whether the text ends with a `/`.
pub fn ends_with_slash(s: &str) -> (r: bool)
    ensures
        r == ends_with_char(s@, '/'),
{
    let c = chars_of(s);
    c.len() > 0 && c[c.len() - 1] == '/'
}

/// Whether `s` starts with `prefix`.
pub fn chars_start_with(s: &Vec<char>, prefix: &Vec<char>) -> (r: bool)
    ensures
        r == starts_with_text(s@, prefix@),
{
    if prefix.len() > s.len() {
        return false;
    }
    let mut i: usize = 0;
    while i < prefix.len()
        invariant
            i <= prefix@.len() <= s@.len(),
            forall|j: int| 0 <= j < i ==> s@[j] == prefix@[j],
        decreases prefix@.len() - i,
    {
        if s[i] != prefix[i] {
            assert(s@.take(prefix@.len() as int)[i as int] != prefix@[i as int]);
            return false;
        }
        i = i + 1;
    }
    assert(s@.take(prefix@.len() as int) =~= prefix@);
    true
}

/// Whether the text starts with `prefix`.
pub fn text_starts_with(s: &str, prefix: &str) -> (r: bool)
    ensures
        r == starts_with_text(s@, prefix@),
{
    let a = chars_of(s);
    let b = chars_of(prefix);
    chars_start_with(&a, &b)
}

/// Whether `part` occurs in `s`.
pub fn chars_contain(s: &Vec<char>, part: &Vec<char>) -> (r: bool)
    ensures
        r == contains_text(s@, part@),
{
    let n: usize = s.len();
    let mut i: usize = 0;
    while part.len() <= n - i
        invariant
            i <= n,
            n == s@.len(),
            forall|k: int| 0 <= k < i ==> !#[trigger] starts_with_text_at(s@, part@, k),
        decreases n - i,
    {
        let mut j: usize = 0;
        while j < part.len() && s[i + j] == part[j]
            invariant
                i + part@.len() <= n,
                n == s@.len(),
                j <= part@.len(),
                forall|k: int| 0 <= k < j ==> s@[i + k] == part@[k],
            decreases part@.len() - j,
        {
            j = j + 1;
        }
        if j == part.len() {
            assert(s@.subrange(i as int, i + part@.len()) =~= part@);
            assert(starts_with_text_at(s@, part@, i as int));
            return true;
        }
        assert(s@.subrange(i as int, i + part@.len())[j as int] == s@[i + j]);
        i = i + 1;
    }
    false
}

/// Whether the characters contain `c`.
pub fn chars_have(s: &Vec<char>, c: char) -> (r: bool)
    ensures
        r == s@.contains(c),
{
    let mut i: usize = 0;
    while i < s.len()
        invariant
            i <= s@.len(),
            forall|j: int| 0 <= j < i ==> s@[j] != c,
        decreases s@.len() - i,
    {
        if s[i] == c {
            return true;
        }
        i = i + 1;
    }
    false
}

/// The views of a sequence of character vectors.
pub open spec fn char_seqs(v: Seq<Vec<char>>) -> Seq<Seq<char>> {
    Seq::new(v.len(), |i: int| v[i]@)
}

/// Every text has at least one segment.
pub proof fn lemma_segments_nonempty(s: Seq<char>)
    ensures
        segments(s).len() >= 1,
    decreases s.len(),
{
    if s.len() > 0 {
        lemma_segments_nonempty(s.drop_last());
    }
}

/// A text without slashes is its own and only segment.
pub proof fn lemma_one_segment(s: Seq<char>)
    requires
        forall|i: int| 0 <= i < s.len() ==> #[trigger] s[i] != '/',
    ensures
        segments(s) == seq![s],
        last_segment(s) == s,
    decreases s.len(),
{
    if s.len() == 0 {
        assert(s =~= Seq::<char>::empty());
    } else {
        let d = s.drop_last();
        assert forall|i: int| 0 <= i < d.len() implies #[trigger] d[i] != '/' by {
            assert(d[i] == s[i]);
        }
        lemma_one_segment(d);
        assert(s[s.len() - 1] != '/');
        assert(d.push(s.last()) =~= s);
        assert(segments(s) =~= seq![s]);
    }
}

/// The segments of a prefix are those of the text, but for the last, which
/// may be cut short.
pub proof fn lemma_segments_prefix(s: Seq<char>, n: int)
    requires
        0 <= n <= s.len(),
    ensures
        segments(s.take(n)).len() <= segments(s).len(),
        forall|i: int|
            0 <= i < segments(s.take(n)).len() - 1 ==> #[trigger] segments(s)[i] == segments(
                s.take(n),
            )[i],
    decreases s.len() - n,
{
    if n == s.len() {
        assert(s.take(n) =~= s);
    } else {
        let d = s.drop_last();
        lemma_segments_prefix(d, n);
        assert(d.take(n) =~= s.take(n));
        lemma_segments_nonempty(d);
        lemma_segments_nonempty(s.take(n));
    }
}

/// The `/`-separated segments of the characters.
pub fn split_segments(s: &Vec<char>) -> (r: Vec<Vec<char>>)
    ensures
        char_seqs(r@) == segments(s@),
        r@.len() >= 1,
{
    let mut done: Vec<Vec<char>> = Vec::new();
    let mut current: Vec<char> = Vec::new();
    let mut i: usize = 0;
    proof {
        assert(s@.take(0) =~= Seq::<char>::empty());
        assert(char_seqs(done@).push(current@) =~= seq![Seq::<char>::empty()]);
    }
    while i < s.len()
        invariant
            i <= s@.len(),
            char_seqs(done@).push(current@) == segments(s@.take(i as int)),
        decreases s@.len() - i,
    {
        let ghost part = s@.take(i + 1);
        assert(part.drop_last() =~= s@.take(i as int));
        let c = s[i];
        assert(part.last() == c);
        let ghost init = segments(s@.take(i as int));
        if c == '/' {
            let ghost old_done = done@;
            done.push(current);
            current = Vec::new();
            assert(char_seqs(done@) =~= init);
        } else {
            current.push(c);
            assert(init.drop_last() =~= char_seqs(done@));
        }
        i = i + 1;
    }
    assert(s@.take(s@.len() as int) =~= s@);
    let ghost old_done = done@;
    done.push(current);
    assert(char_seqs(done@) =~= char_seqs(old_done).push(current@));
    done
}

/// The decimal digits of a number, most significant first.
pub open spec fn dec(n: nat) -> Seq<char>
    decreases n,
{
    if n < 10 {
        seq![digit(n)]
    } else {
        dec(n / 10).push(digit(n % 10))
    }
}

/// The character of a hexadecimal (so also of a decimal) digit.
pub open spec fn digit(d: nat) -> char {
    if d == 0 {
        '0'
    } else if d == 1 {
        '1'
    } else if d == 2 {
        '2'
    } else if d == 3 {
        '3'
    } else if d == 4 {
        '4'
    } else if d == 5 {
        '5'
    } else if d == 6 {
        '6'
    } else if d == 7 {
        '7'
    } else if d == 8 {
        '8'
    } else if d == 9 {
        '9'
    } else if d == 10 {
        'a'
    } else if d == 11 {
        'b'
    } else if d == 12 {
        'c'
    } else if d == 13 {
        'd'
    } else if d == 14 {
        'e'
    } else {
        'f'
    }
}

/// The character of a digit.
pub fn digit_char(d: u64) -> (c: char)
    requires
        d < 16,
    ensures
        c == digit(d as nat),
{
    match d {
        0 => '0',
        1 => '1',
        2 => '2',
        3 => '3',
        4 => '4',
        5 => '5',
        6 => '6',
        7 => '7',
        8 => '8',
        9 => '9',
        10 => 'a',
        11 => 'b',
        12 => 'c',
        13 => 'd',
        14 => 'e',
        _ => 'f',
    }
}

/// The decimal text of a number.
pub fn decimal(n: u64) -> (r: String)
    ensures
        r@ == dec(n as nat),
    decreases n,
{
    if n < 10 {
        let mut s = String::new();
        s.push(digit_char(n));
        assert(s@ =~= seq![digit(n as nat)]);
        s
    } else {
        let mut s = decimal(n / 10);
        s.push(digit_char(n % 10));
        s
    }
}

proof fn lemma_dec_nonempty(n: nat)
    ensures
        dec(n).len() >= 1,
        n >= 10 ==> dec(n).len() >= 2,
    decreases n,
{
    if n >= 10 {
        lemma_dec_nonempty(n / 10);
    }
}

/// A decimal text holds digits alone.
pub proof fn lemma_dec_chars(n: nat)
    ensures
        forall|i: int| 0 <= i < dec(n).len() ==> '0' <= #[trigger] dec(n)[i] && dec(n)[i] <= '9',
    decreases n,
{
    if n >= 10 {
        lemma_dec_chars(n / 10);
        assert forall|i: int| 0 <= i < dec(n).len() implies '0' <= #[trigger] dec(n)[i] && dec(
            n,
        )[i] <= '9' by {
            if i < dec(n / 10).len() {
                assert(dec(n)[i] == dec(n / 10)[i]);
            }
        }
    }
}

/// Different numbers have different decimal texts.
pub proof fn lemma_dec_injective(n: nat, m: nat)
    requires
        n != m,
    ensures
        dec(n) != dec(m),
    decreases n,
{
    lemma_dec_nonempty(n);
    lemma_dec_nonempty(m);
    if dec(n) == dec(m) {
        assert(dec(n).last() == dec(m).last());
        if n >= 10 && m >= 10 {
            assert(digit(n % 10) == digit(m % 10));
            assert(n % 10 == m % 10);
            assert(dec(n).drop_last() =~= dec(n / 10));
            assert(dec(m).drop_last() =~= dec(m / 10));
            lemma_dec_injective(n / 10, m / 10);
        }
    }
}

/// The lower-case hexadecimal text of a number, with `width` digits.
pub open spec fn hex(n: nat, width: nat) -> Seq<char>
    decreases width,
{
    if width == 0 {
        Seq::<char>::empty()
    } else {
        hex(n / 16, (width - 1) as nat).push(digit(n % 16))
    }
}

/// The lower-case hexadecimal text of `n`, with `width` digits.
pub fn hexadecimal(n: u64, width: u64) -> (r: String)
    ensures
        r@ == hex(n as nat, width as nat),
    decreases width,
{
    if width == 0 {
        String::new()
    } else {
        let mut s = hexadecimal(n / 16, width - 1);
        s.push(digit_char(n % 16));
        s
    }
}

/// `a` followed by `b`.
pub fn cat2(a: &str, b: &str) -> (r: String)
    ensures
        r@ == a@ + b@,
{
    let mut s = a.to_owned();
    s.append(b);
    s
}

/// `a`, `b` and `c`, one after the other.
pub fn cat3(a: &str, b: &str, c: &str) -> (r: String)
    ensures
        r@ == a@ + b@ + c@,
{
    let mut s = cat2(a, b);
    s.append(c);
    s
}

/// `a` to `d`, one after the other.
pub fn cat4(a: &str, b: &str, c: &str, d: &str) -> (r: String)
    ensures
        r@ == a@ + b@ + c@ + d@,
{
    let mut s = cat3(a, b, c);
    s.append(d);
    s
}

/// `a` to `e`, one after the other.
pub fn cat5(a: &str, b: &str, c: &str, d: &str, e: &str) -> (r: String)
    ensures
        r@ == a@ + b@ + c@ + d@ + e@,
{
    let mut s = cat3(a, b, c);
    s.append(d);
    s.append(e);
    s
}

/// The bytes of a character from U+0020 on are all at least 0x20.
proof fn lemma_scalar_bytes(ch: char)
    requires
        ch >= ' ',
    ensures
        forall|i: int|
            0 <= i < encode_scalar(ch as u32).len() ==> #[trigger] encode_scalar(ch as u32)[i]
                >= 0x20,
{
    let c = ch as u32;
    assert(c <= 0x7f && c >= 0x20 ==> (c & 0x7f) as u8 >= 0x20) by (bit_vector);
    assert(forall|x: u8| #[trigger] (0xC0u8 | x) >= 0x20) by (bit_vector);
    assert(forall|x: u8| #[trigger] (0xE0u8 | x) >= 0x20) by (bit_vector);
    assert(forall|x: u8| #[trigger] (0xF0u8 | x) >= 0x20) by (bit_vector);
    assert(forall|x: u8| #[trigger] (0x80u8 | x) >= 0x20) by (bit_vector);
}

/// A text without characters below U+0020 is encoded without bytes below 0x20.
pub proof fn lemma_bytes_from_space(s: Seq<char>)
    requires
        forall|i: int| 0 <= i < s.len() ==> #[trigger] s[i] >= ' ',
    ensures
        forall|i: int| 0 <= i < encode_utf8(s).len() ==> #[trigger] encode_utf8(s)[i] >= 0x20,
    decreases s.len(),
{
    if s.len() > 0 {
        let f = s.drop_first();
        assert forall|i: int| 0 <= i < f.len() implies #[trigger] f[i] >= ' ' by {
            assert(f[i] == s[i + 1]);
        }
        lemma_bytes_from_space(f);
        lemma_scalar_bytes(s[0]);
        let h = encode_scalar(s[0] as u32);
        let all = encode_utf8(s);
        assert forall|i: int| 0 <= i < all.len() implies #[trigger] all[i] >= 0x20 by {
            if i < h.len() {
                assert(all[i] == h[i]);
            } else {
                assert(all[i] == encode_utf8(f)[i - h.len()]);
            }
        }
    }
}

/// The text of segments with a `/` between each two.
pub open spec fn rejoined(segs: Seq<Seq<char>>) -> Seq<char>
    decreases segs.len(),
{
    if segs.len() == 0 {
        Seq::<char>::empty()
    } else if segs.len() == 1 {
        segs[0]
    } else {
        rejoined(segs.drop_last()).push('/') + segs.last()
    }
}

/// A text is cut into segments at every `/` and nowhere else: the segments hold
/// no `/`, and joined by `/` they are the text again.
pub proof fn law_segments_rejoin(s: Seq<char>)
    ensures
        segments(s).len() >= 1,
        rejoined(segments(s)) == s,
        forall|i: int, j: int|
            0 <= i < segments(s).len() && 0 <= j < segments(s)[i].len() ==> #[trigger] segments(
                s,
            )[i][j] != '/',
    decreases s.len(),
{
    lemma_segments_nonempty(s);
    if s.len() > 0 {
        let d = s.drop_last();
        let init = segments(d);
        let all = segments(s);
        law_segments_rejoin(d);
        lemma_segments_nonempty(d);
        if s.last() == '/' {
            assert(all.drop_last() =~= init);
            assert(rejoined(all) =~= d.push('/'));
            assert(s =~= d.push('/'));
        } else {
            let c = s.last();
            assert(s =~= d.push(c));
            assert(all.len() == init.len());
            if init.len() == 1 {
                assert(all[0] == init[0].push(c));
            } else {
                assert(all.drop_last() =~= init.drop_last());
                assert(rejoined(all) =~= rejoined(init).push(c));
            }
        }
        assert forall|i: int, j: int| 0 <= i < all.len() && 0 <= j < all[i].len() implies
            #[trigger] all[i][j] != '/' by {
            if s.last() == '/' {
                if i < init.len() {
                    assert(all[i] == init[i]);
                    assert(init[i][j] != '/');
                }
            } else if i < init.len() - 1 {
                assert(all[i] == init[i]);
                assert(init[i][j] != '/');
            } else {
                assert(all[i] == init[i].push(s.last()));
                if j < init[i].len() {
                    assert(init[i][j] != '/');
                }
            }
        }
    }
}

/// Different texts have different segments.
pub proof fn lemma_segments_injective(a: Seq<char>, b: Seq<char>)
    requires
        segments(a) == segments(b),
    ensures
        a == b,
{
    law_segments_rejoin(a);
    law_segments_rejoin(b);
}

/// The segments of two texts with a `/` between them.
pub proof fn lemma_segments_concat(a: Seq<char>, b: Seq<char>)
    ensures
        segments(a.push('/') + b) == segments(a) + segments(b),
    decreases b.len(),
{
    let t = a.push('/') + b;
    if b.len() == 0 {
        assert(t =~= a.push('/'));
        assert(a.push('/').drop_last() =~= a);
        assert(segments(t) =~= segments(a) + segments(b));
    } else {
        let e = b.drop_last();
        lemma_segments_concat(a, e);
        lemma_segments_nonempty(e);
        assert(t.drop_last() =~= a.push('/') + e);
        assert(t.last() == b.last());
        let init = segments(a) + segments(e);
        assert(init.last() == segments(e).last());
        assert(init.drop_last() =~= segments(a) + segments(e).drop_last());
        assert(segments(t) =~= segments(a) + segments(b));
    }
}

/// A text falls apart at the `/` before its segment `n`.
pub proof fn lemma_split_at(s: Seq<char>, n: int) -> (r: (Seq<char>, Seq<char>))
    requires
        1 <= n < segments(s).len(),
    ensures
        s == r.0.push('/') + r.1,
        segments(r.0) == segments(s).take(n),
        segments(r.1) == segments(s).skip(n),
    decreases s.len(),
{
    let d = s.drop_last();
    let c = s.last();
    let init = segments(d);
    let all = segments(s);
    lemma_segments_nonempty(d);
    if c == '/' && n == init.len() {
        let y = Seq::<char>::empty();
        assert(all.take(n) =~= init);
        assert(all.skip(n) =~= segments(y));
        assert(s =~= d.push('/') + y);
        (d, y)
    } else {
        let (x, y) = lemma_split_at(d, n);
        let z = y.push(c);
        assert(z.drop_last() =~= y);
        assert(s =~= d.push(c));
        assert(s =~= x.push('/') + z);
        assert(all.take(n) =~= init.take(n));
        assert(segments(y) == init.skip(n));
        if c == '/' {
            assert(all.skip(n) =~= init.skip(n).push(Seq::<char>::empty()));
        } else {
            assert(init.skip(n).last() == init.last());
            assert(all.skip(n) =~= init.skip(n).drop_last().push(init.last().push(c)));
        }
        (x, z)
    }
}

/// The number that a decimal text stands for.
pub open spec fn decimal_value(s: Seq<char>) -> nat
    decreases s.len(),
{
    if s.len() == 0 {
        0
    } else {
        10 * decimal_value(s.drop_last()) + (s.last() as nat - '0' as nat) as nat
    }
}

/// A decimal text stands for its number, and has no zero in front but that of
/// zero itself.
pub proof fn law_decimals_read_back(n: nat)
    ensures
        decimal_value(dec(n)) == n,
        dec(n).len() >= 1,
        n > 0 ==> dec(n)[0] != '0',
    decreases n,
{
    lemma_dec_nonempty(n);
    if n >= 10 {
        law_decimals_read_back(n / 10);
        lemma_dec_nonempty(n / 10);
        assert(dec(n).drop_last() =~= dec(n / 10));
    } else {
        assert(dec(n).drop_last() =~= Seq::<char>::empty());
        assert(decimal_value(dec(n).drop_last()) == 0);
    }
}

/// White space and control characters are those of the Unicode standard.
pub proof fn law_character_classes(c: char)
    ensures
        is_control(c) == ((c as u32) <= 31 || 127 <= (c as u32) <= 159),
        is_whitespace(c) == (9 <= (c as u32) <= 13 || (c as u32) == 32 || (c as u32) == 133 || (
        c as u32) == 160 || (c as u32) == 5760 || 8192 <= (c as u32) <= 8202 || (c as u32) == 8232
            || (c as u32) == 8233 || (c as u32) == 8239 || (c as u32) == 8287 || (c as u32)
            == 12288),
{
}

/// The number that a hexadecimal text stands for.
pub open spec fn hex_value(s: Seq<char>) -> nat
    decreases s.len(),
{
    if s.len() == 0 {
        0
    } else {
        16 * hex_value(s.drop_last()) + (if s.last() <= '9' {
            (s.last() as nat - '0' as nat) as nat
        } else {
            (s.last() as nat - 'a' as nat + 10) as nat
        })
    }
}

/// A hexadecimal text has the asked number of digits, `0` to `9` and `a` to `f`,
/// and stands for its number if that many digits can hold it.
pub proof fn law_hex_reads_back(n: nat, width: nat)
    ensures
        hex(n, width).len() == width,
        n < vstd::arithmetic::power::pow(16, width) ==> hex_value(hex(n, width)) == n,
        forall|i: int|
            0 <= i < width ==> ('0' <= #[trigger] hex(n, width)[i] && hex(n, width)[i] <= '9') || (
            'a' <= hex(n, width)[i] && hex(n, width)[i] <= 'f'),
    decreases width,
{
    reveal(vstd::arithmetic::power::pow);
    if width > 0 {
        let w = (width - 1) as nat;
        let p = vstd::arithmetic::power::pow(16, w);
        law_hex_reads_back(n / 16, w);
        assert(hex(n, width).drop_last() =~= hex(n / 16, w));
        assert(vstd::arithmetic::power::pow(16, width) == 16 * p);
        if n < vstd::arithmetic::power::pow(16, width) {
            assert(n / 16 < p);
        }
        assert forall|i: int| 0 <= i < width implies ('0' <= #[trigger] hex(n, width)[i] && hex(
            n,
            width,
        )[i] <= '9') || ('a' <= hex(n, width)[i] && hex(n, width)[i] <= 'f') by {
            if i < w {
                assert(hex(n, width)[i] == hex(n / 16, w)[i]);
            }
        }
    }
}

/// Texts are ordered by their bytes: at the first place where they differ the
/// smaller byte comes first, and a text comes before one that goes on from it.
pub proof fn law_order_is_bytewise(a: Seq<u8>, b: Seq<u8>)
    ensures
        bytes_before(a, b) <==> exists|p: int|
            0 <= p <= a.len() && p < b.len() && #[trigger] a.take(p) == b.take(p) && (p == a.len()
                || a[p] < b[p]),
    decreases a.len(),
{
    if b.len() > 0 && a.len() == 0 {
        assert(a.take(0) =~= b.take(0));
    } else if b.len() > 0 && a[0] != b[0] {
        assert(a.take(0) =~= b.take(0));
        if exists|p: int|
            0 <= p <= a.len() && p < b.len() && #[trigger] a.take(p) == b.take(p) && (p == a.len()
                || a[p] < b[p]) {
            let p = choose|p: int|
                0 <= p <= a.len() && p < b.len() && #[trigger] a.take(p) == b.take(p) && (p
                    == a.len() || a[p] < b[p]);
            if p > 0 {
                assert(a.take(p)[0] == b.take(p)[0]);
            }
        }
    } else if b.len() > 0 {
        let x = a.drop_first();
        let y = b.drop_first();
        law_order_is_bytewise(x, y);
        if bytes_before(x, y) {
            let p = choose|p: int|
                0 <= p <= x.len() && p < y.len() && #[trigger] x.take(p) == y.take(p) && (p
                    == x.len() || x[p] < y[p]);
            assert(a.take(p + 1) =~= seq![a[0]] + x.take(p));
            assert(b.take(p + 1) =~= seq![b[0]] + y.take(p));
            assert(a.take(p + 1) == b.take(p + 1));
        }
        if exists|p: int|
            0 <= p <= a.len() && p < b.len() && #[trigger] a.take(p) == b.take(p) && (p == a.len()
                || a[p] < b[p]) {
            let p = choose|p: int|
                0 <= p <= a.len() && p < b.len() && #[trigger] a.take(p) == b.take(p) && (p
                    == a.len() || a[p] < b[p]);
            assert(p > 0);
            assert(x.take(p - 1) =~= a.take(p).drop_first());
            assert(y.take(p - 1) =~= b.take(p).drop_first());
            assert(x.take(p - 1) == y.take(p - 1));
        }
    }
}

} // verus!
