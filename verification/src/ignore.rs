//! Ignore-set matcher over vault-relative entity keys.
//!
//! Pattern shapes:
//! - `name`: any key whose final segment is `name` (basename-anywhere);
//! - `path/to/file`: exactly that key;
//! - `path/to/dir/`: that folder key and everything under it;
//! - a segment containing `*`: per-segment glob (`*` = any run of non-`/`
//!   chars, including none; does not cross `/`);
//! - empty, leading `/`, `**`, `!`, `[`/`]`, `\`, `?`: loud rejects.
//!
//! Multiple patterns OR together; zero patterns match nothing.

use vstd::prelude::*;
use crate::error::{Error, ErrorView};
use crate::text;
use crate::text::{
    cat4, chars_contain, chars_have, chars_of, debug_string, split_segments,
};

verus! {

/// Whether glob `p` matches all of `s`: `*` stands for any run of characters.
pub open spec fn glob(p: Seq<char>, s: Seq<char>) -> bool
    decreases p.len(), s.len(),
{
    if p.len() == 0 {
        s.len() == 0
    } else if p[0] == '*' {
        glob(p.drop_first(), s) || (s.len() > 0 && glob(p, s.drop_first()))
    } else {
        s.len() > 0 && s[0] == p[0] && glob(p.drop_first(), s.drop_first())
    }
}

/// The segments of a pattern; the trailing `/` of the dir form is no segment.
pub open spec fn pattern_segments(pat: Seq<char>) -> Seq<Seq<char>> {
    text::segments(text::strip_slash(pat))
}

/// Whether the first segments of a key match the segments of a pattern.
pub open spec fn prefix_matches(p: Seq<Seq<char>>, k: Seq<Seq<char>>) -> bool {
    p.len() <= k.len() && forall|i: int| 0 <= i < p.len() ==> glob(#[trigger] p[i], k[i])
}

/// The final segment of a key: one trailing `/` is no part of it.
pub open spec fn final_segment(key: Seq<char>) -> Seq<char> {
    text::last_segment(text::strip_slash(key))
}

/// Whether a key is ignored by a pattern.
pub open spec fn pattern_matches(pat: Seq<char>, key: Seq<char>) -> bool {
    let p = pattern_segments(pat);
    let k = text::segments(key);
    if text::ends_with_char(pat, '/') {
        k.len() > p.len() && prefix_matches(p, k)
    } else if p.len() == 1 {
        glob(p[0], final_segment(key))
    } else {
        k.len() == p.len() && prefix_matches(p, k)
    }
}

/// Whether a key is ignored by any of the patterns.
pub open spec fn ignored(patterns: Seq<Seq<char>>, key: Seq<char>) -> bool {
    exists|i: int| 0 <= i < patterns.len() && pattern_matches(#[trigger] patterns[i], key)
}

/// Why a pattern is rejected; `None` for one that is accepted.
pub open spec fn pattern_fault(pat: Seq<char>) -> Option<Seq<char>> {
    if pat.len() == 0 {
        Some("pattern must not be empty"@)
    } else if pat[0] == '/' {
        Some("leading '/' is not allowed"@)
    } else if text::contains_text(pat, seq!['*', '*']) {
        Some("'**' is not supported"@)
    } else if pat.contains('!') {
        Some("'!' (negation) is not supported"@)
    } else if pat.contains('\\') {
        Some("'\\' (escape) is not supported"@)
    } else if pat.contains('[') || pat.contains(']') {
        Some("character classes ('[' / ']') are not supported"@)
    } else if pat.contains('?') {
        Some("'?' is not supported"@)
    } else if exists|i: int|
        0 <= i < pattern_segments(pat).len() && (#[trigger] pattern_segments(pat)[i]).len() == 0 {
        Some("pattern contains an empty path segment"@)
    } else {
        None
    }
}

/// The message of a rejected pattern.
pub open spec fn fault_message(pat: Seq<char>, why: Seq<char>) -> Seq<char> {
    "invalid ignore pattern "@ + text::debug_text(pat) + ": "@ + why
}

/// The error of the first rejected pattern, if one is.
pub open spec fn first_pattern_error(patterns: Seq<Seq<char>>) -> Option<ErrorView>
    decreases patterns.len(),
{
    if patterns.len() == 0 {
        None
    } else {
        match pattern_fault(patterns[0]) {
            Some(why) => Some(ErrorView::Other(fault_message(patterns[0], why))),
            None => first_pattern_error(patterns.drop_first()),
        }
    }
}

/// One compiled pattern.
#[derive(Debug)]
struct Rule {
    pattern: String,
    segs: Vec<Vec<char>>,
    dir: bool,
}

impl Rule {
    spec fn wf(self) -> bool {
        &&& text::char_seqs(self.segs@) == pattern_segments(self.pattern@)
        &&& self.dir == text::ends_with_char(self.pattern@, '/')
    }

    fn copy(&self) -> (r: Rule)
        requires
            self.wf(),
        ensures
            r.wf(),
            r.pattern@ == self.pattern@,
    {
        let mut segs: Vec<Vec<char>> = Vec::new();
        let mut i: usize = 0;
        while i < self.segs.len()
            invariant
                i <= self.segs@.len(),
                segs@.len() == i,
                forall|j: int| 0 <= j < i ==> (#[trigger] segs@[j])@ == self.segs@[j]@,
            decreases self.segs@.len() - i,
        {
            let mut seg: Vec<char> = Vec::new();
            let mut j: usize = 0;
            while j < self.segs[i].len()
                invariant
                    i < self.segs@.len(),
                    j <= self.segs@[i as int]@.len(),
                    seg@ == self.segs@[i as int]@.take(j as int),
                decreases self.segs@[i as int]@.len() - j,
            {
                seg.push(self.segs[i][j]);
                assert(self.segs@[i as int]@.take(j + 1) =~= self.segs@[i as int]@.take(
                    j as int,
                ).push(self.segs@[i as int]@[j as int]));
                j = j + 1;
            }
            assert(self.segs@[i as int]@.take(j as int) =~= self.segs@[i as int]@);
            segs.push(seg);
            i = i + 1;
        }
        assert(text::char_seqs(segs@) =~= text::char_seqs(self.segs@));
        Rule { pattern: self.pattern.clone(), segs, dir: self.dir }
    }

    /// Whether the rule ignores the key with the given segments.
    fn matches(&self, key: &Vec<Vec<char>>, last: &Vec<char>, Ghost(text_of_key): Ghost<Seq<char>>) -> (r: bool)
        requires
            self.wf(),
            text::char_seqs(key@) == text::segments(text_of_key),
            last@ == final_segment(text_of_key),
        ensures
            r == pattern_matches(self.pattern@, text_of_key),
    {
        let ghost p = pattern_segments(self.pattern@);
        let ghost k = text::segments(text_of_key);
        let n: usize = self.segs.len();
        if !self.dir && n == 1 {
            assert(p[0] == self.segs@[0]@);
            return glob_chars(&self.segs[0], last);
        }
        if self.dir {
            if key.len() <= n {
                return false;
            }
        } else if key.len() != n {
            return false;
        }
        let mut i: usize = 0;
        while i < n
            invariant
                i <= n,
                n == self.segs@.len(),
                n <= key@.len(),
                p == text::char_seqs(self.segs@),
                k == text::char_seqs(key@),
                p == pattern_segments(self.pattern@),
                k == text::segments(text_of_key),
                self.dir == text::ends_with_char(self.pattern@, '/'),
                self.dir || n != 1,
                forall|j: int| 0 <= j < i ==> glob(#[trigger] p[j], k[j]),
            decreases n - i,
        {
            assert(p[i as int] == self.segs@[i as int]@);
            assert(k[i as int] == key@[i as int]@);
            if !glob_chars(&self.segs[i], &key[i]) {
                assert(!prefix_matches(p, k));
                return false;
            }
            i = i + 1;
        }
        true
    }
}

/// Whether glob `p` matches all of `s`.
fn glob_chars(p: &Vec<char>, s: &Vec<char>) -> (r: bool)
    ensures
        r == glob(p@, s@),
{
    let n: usize = s.len();
    // `row[j]` tells whether the rest of the pattern matches `s[j..]`, and
    // `end` whether it matches nothing at all.
    let mut row: Vec<bool> = Vec::new();
    let mut end = true;
    let ghost none = p@.skip(p@.len() as int);
    while row.len() < n
        invariant
            n == s@.len(),
            none.len() == 0,
            row@.len() <= n,
            forall|x: int| 0 <= x < row@.len() ==> #[trigger] row@[x] == glob(none, s@.skip(x)),
        decreases n - row@.len(),
    {
        row.push(false);
    }
    let mut i: usize = p.len();
    while i > 0
        invariant
            i <= p@.len(),
            n == s@.len(),
            row@.len() == n,
            end == glob(p@.skip(i as int), s@.skip(n as int)),
            forall|x: int| 0 <= x < n ==> #[trigger] row@[x] == glob(p@.skip(i as int), s@.skip(x)),
        decreases i,
    {
        i = i - 1;
        let ghost pat = p@.skip(i as int);
        let ghost rest = p@.skip(i + 1);
        assert(pat.drop_first() =~= rest);
        let c = p[i];
        assert(pat[0] == c);
        let mut after_old = end;
        end = c == '*' && end;
        let mut after_new = end;
        let mut left: usize = n;
        while left > 0
            invariant
                left <= n,
                n == s@.len(),
                pat.len() > 0,
                pat.drop_first() == rest,
                pat[0] == c,
                row@.len() == n,
                after_old == glob(rest, s@.skip(left as int)),
                after_new == glob(pat, s@.skip(left as int)),
                forall|x: int| 0 <= x < left ==> #[trigger] row@[x] == glob(rest, s@.skip(x)),
                forall|x: int| left <= x < n ==> #[trigger] row@[x] == glob(pat, s@.skip(x)),
            decreases left,
        {
            left = left - 1;
            proof {
                let here = s@.skip(left as int);
                assert(here.drop_first() =~= s@.skip(left + 1));
                assert(here[0] == s@[left as int]);
            }
            let here_old = row[left];
            let hit = if c == '*' {
                here_old || after_new
            } else {
                s[left] == c && after_old
            };
            row.set(left, hit);
            after_old = here_old;
            after_new = hit;
        }
    }
    assert(p@.skip(0) =~= p@);
    assert(s@.skip(0) =~= s@);
    if n == 0 {
        end
    } else {
        assert(row@[0] == glob(p@.skip(0), s@.skip(0)));
        row[0]
    }
}

/// A compiled set of ignore patterns; its view is the list of the patterns.
///
/// Construct once with [`IgnoreSet::from_patterns`], then query repeatedly
/// with [`IgnoreSet::matches`]. No re-parsing happens after construction.
#[derive(Debug)]
pub struct IgnoreSet {
    rules: Vec<Rule>,
}

impl View for IgnoreSet {
    type V = Seq<Seq<char>>;

    closed spec fn view(&self) -> Seq<Seq<char>> {
        Seq::new(self.rules@.len(), |i: int| self.rules@[i].pattern@)
    }
}

impl Clone for IgnoreSet {
    fn clone(&self) -> (r: Self)
        ensures
            r@ == self@,
    {
        proof {
            use_type_invariant(self);
        }
        let mut rules: Vec<Rule> = Vec::new();
        let mut i: usize = 0;
        while i < self.rules.len()
            invariant
                i <= self.rules@.len(),
                forall|j: int| 0 <= j < self.rules@.len() ==> (#[trigger] self.rules@[j]).wf(),
                rules@.len() == i,
                forall|j: int|
                    0 <= j < i ==> (#[trigger] rules@[j]).wf() && rules@[j].pattern@
                        == self.rules@[j].pattern@,
            decreases self.rules@.len() - i,
        {
            rules.push(self.rules[i].copy());
            i = i + 1;
        }
        let r = IgnoreSet { rules };
        assert(r@ =~= self@);
        r
    }
}

impl IgnoreSet {
    #[verifier::type_invariant]
    spec fn wf(self) -> bool {
        forall|i: int| 0 <= i < self.rules@.len() ==> (#[trigger] self.rules@[i]).wf()
    }

    /// The set that ignores nothing.
    pub fn empty() -> (r: Self)
        ensures
            r@ == Seq::<Seq<char>>::empty(),
    {
        let r = IgnoreSet { rules: Vec::new() };
        assert(r@ =~= Seq::<Seq<char>>::empty());
        r
    }

    /// Compile `patterns` into a reusable matcher.
    ///
    /// Empty input is valid (matches nothing). On an invalid pattern, the
    /// error names the first offending pattern and the reason.
    pub fn from_patterns(patterns: &[String]) -> (r: Result<Self, Error>)
        ensures
            match r {
                Ok(set) => first_pattern_error(text::texts(patterns@)) is None && set@
                    == text::texts(patterns@),
                Err(e) => first_pattern_error(text::texts(patterns@)) == Some(e@),
            },
    {
        let ghost all = text::texts(patterns@);
        let mut rules: Vec<Rule> = Vec::new();
        let mut i: usize = 0;
        assert(all.skip(0) =~= all);
        while i < patterns.len()
            invariant
                i <= patterns@.len(),
                all == text::texts(patterns@),
                rules@.len() == i,
                forall|j: int|
                    0 <= j < i ==> (#[trigger] rules@[j]).wf() && rules@[j].pattern@ == all[j],
                first_pattern_error(all) == first_pattern_error(all.skip(i as int)),
            decreases patterns@.len() - i,
        {
            let ghost rest = all.skip(i as int);
            assert(rest[0] == patterns@[i as int]@);
            assert(rest.drop_first() =~= all.skip(i + 1));
            match compile_pattern(patterns[i].as_str()) {
                Ok(rule) => rules.push(rule),
                Err(e) => return Err(e),
            }
            i = i + 1;
        }
        let set = IgnoreSet { rules };
        assert(set@ =~= all);
        Ok(set)
    }

    /// True when `key` (vault-relative entity key) is ignored by any pattern.
    pub fn matches(&self, key: &str) -> (r: bool)
        ensures
            r == ignored(self@, key@),
    {
        proof {
            use_type_invariant(self);
        }
        let c = chars_of(key);
        let segs = split_segments(&c);
        let last = final_segment_of(&c);
        let mut i: usize = 0;
        while i < self.rules.len()
            invariant
                i <= self.rules@.len(),
                forall|j: int| 0 <= j < self.rules@.len() ==> (#[trigger] self.rules@[j]).wf(),
                text::char_seqs(segs@) == text::segments(key@),
                last@ == final_segment(key@),
                forall|j: int| 0 <= j < i ==> !pattern_matches(#[trigger] self@[j], key@),
            decreases self.rules@.len() - i,
        {
            assert(self@[i as int] == self.rules@[i as int].pattern@);
            if self.rules[i].matches(&segs, &last, Ghost(key@)) {
                assert(pattern_matches(self@[i as int], key@));
                return true;
            }
            i = i + 1;
        }
        false
    }
}

/// The final segment of the characters of a key.
pub fn final_segment_of(c: &Vec<char>) -> (r: Vec<char>)
    ensures
        r@ == final_segment(c@),
{
    let mut k: Vec<char> = Vec::new();
    let n: usize = c.len();
    let keep: usize = if n > 0 && c[n - 1] == '/' {
        n - 1
    } else {
        n
    };
    let mut i: usize = 0;
    while i < keep
        invariant
            i <= keep <= c@.len(),
            k@ == c@.take(i as int),
        decreases keep - i,
    {
        k.push(c[i]);
        assert(c@.take(i + 1) =~= c@.take(i as int).push(c@[i as int]));
        i = i + 1;
    }
    assert(k@ =~= text::strip_slash(c@));
    let mut segs = split_segments(&k);
    let ghost all = text::char_seqs(segs@);
    match segs.pop() {
        Some(s) => {
            assert(all.last() == s@);
            s
        },
        None => k,
    }
}

/// The error of a rejected pattern.
fn invalid(pat: &str, why: &str) -> (e: Error)
    ensures
        e@ == ErrorView::Other(fault_message(pat@, why@)),
{
    let d = debug_string(pat);
    Error::Other(cat4("invalid ignore pattern ", d.as_str(), ": ", why))
}

/// Compile one raw pattern. Every reject names the offending pattern.
fn compile_pattern(pat: &str) -> (r: Result<Rule, Error>)
    ensures
        match r {
            Ok(rule) => pattern_fault(pat@) is None && rule.wf() && rule.pattern@ == pat@,
            Err(e) => pattern_fault(pat@) is Some && e@ == ErrorView::Other(
                fault_message(pat@, pattern_fault(pat@)->0),
            ),
        },
{
    let c = chars_of(pat);
    if c.len() == 0 {
        return Err(invalid(pat, "pattern must not be empty"));
    }
    if c[0] == '/' {
        return Err(invalid(pat, "leading '/' is not allowed"));
    }
    let mut stars: Vec<char> = Vec::new();
    stars.push('*');
    stars.push('*');
    assert(stars@ =~= seq!['*', '*']);
    if chars_contain(&c, &stars) {
        return Err(invalid(pat, "'**' is not supported"));
    }
    if chars_have(&c, '!') {
        return Err(invalid(pat, "'!' (negation) is not supported"));
    }
    if chars_have(&c, '\\') {
        return Err(invalid(pat, "'\\' (escape) is not supported"));
    }
    if chars_have(&c, '[') || chars_have(&c, ']') {
        return Err(invalid(pat, "character classes ('[' / ']') are not supported"));
    }
    if chars_have(&c, '?') {
        return Err(invalid(pat, "'?' is not supported"));
    }
    // A single trailing empty segment (the pattern ended with `/`) sets the
    // dir form and is not a match segment; any other empty segment rejects.
    let n: usize = c.len();
    let dir = c[n - 1] == '/';
    let mut body = c;
    if dir {
        let _ = body.pop();
    }
    assert(body@ =~= text::strip_slash(pat@));
    let segs = split_segments(&body);
    let ghost all = pattern_segments(pat@);
    let mut i: usize = 0;
    while i < segs.len()
        invariant
            i <= segs@.len(),
            all == text::char_seqs(segs@),
            all == pattern_segments(pat@),
            forall|j: int| 0 <= j < i ==> (#[trigger] all[j]).len() > 0,
            pat@.len() > 0,
            pat@[0] != '/',
            !text::contains_text(pat@, seq!['*', '*']),
            !pat@.contains('!') && !pat@.contains('\\') && !pat@.contains('[') && !pat@.contains(']')
                && !pat@.contains('?'),
        decreases segs@.len() - i,
    {
        assert(all[i as int] == segs@[i as int]@);
        if segs[i].len() == 0 {
            assert(pattern_segments(pat@)[i as int].len() == 0);
            return Err(invalid(pat, "pattern contains an empty path segment"));
        }
        i = i + 1;
    }
    Ok(Rule { pattern: pat.to_owned(), segs, dir })
}

/// Without patterns nothing is ignored.
pub proof fn law_no_patterns_ignore_nothing(key: Seq<char>)
    ensures
        !ignored(Seq::<Seq<char>>::empty(), key),
{
}

/// Patterns add up: a key is ignored by two sets together if and only if it is
/// ignored by one of them. So more patterns never bring a key back.
pub proof fn law_patterns_add_up(p: Seq<Seq<char>>, q: Seq<Seq<char>>, key: Seq<char>)
    ensures
        ignored(p + q, key) == (ignored(p, key) || ignored(q, key)),
{
    let both = p + q;
    if ignored(both, key) {
        let i = choose|i: int| 0 <= i < both.len() && pattern_matches(#[trigger] both[i], key);
        if i < p.len() {
            assert(p[i] == both[i]);
        } else {
            assert(q[i - p.len()] == both[i]);
        }
    }
    if ignored(p, key) {
        let i = choose|i: int| 0 <= i < p.len() && pattern_matches(#[trigger] p[i], key);
        assert(both[i] == p[i]);
    }
    if ignored(q, key) {
        let i = choose|i: int| 0 <= i < q.len() && pattern_matches(#[trigger] q[i], key);
        assert(both[p.len() + i] == q[i]);
    }
}

/// A glob without `*` matches itself and nothing else.
pub proof fn law_literal_glob(p: Seq<char>, s: Seq<char>)
    requires
        !p.contains('*'),
    ensures
        glob(p, s) == (p == s),
    decreases p.len(),
{
    if p.len() == 0 {
        if s.len() == 0 {
            assert(p =~= s);
        }
    } else {
        assert(p[0] != '*') by {
            assert(p.contains(p[0]));
        }
        let q = p.drop_first();
        assert(!q.contains('*')) by {
            if q.contains('*') {
                let i = choose|i: int| 0 <= i < q.len() && q[i] == '*';
                assert(p[i + 1] == '*');
            }
        }
        if s.len() > 0 {
            law_literal_glob(q, s.drop_first());
            if s[0] == p[0] && q == s.drop_first() {
                assert(p =~= seq![p[0]] + q);
                assert(s =~= seq![s[0]] + s.drop_first());
            }
        }
    }
}

/// A folder pattern covers the whole subtree: if it matches a folder, it
/// matches every key below that folder. So to prune the folder from a walk is
/// to ignore all that is in it.
pub proof fn law_folder_pattern_covers_subtree(pat: Seq<char>, folder: Seq<char>, key: Seq<char>)
    requires
        text::ends_with_char(pat, '/'),
        text::ends_with_char(folder, '/'),
        text::starts_with_text(key, folder),
        pattern_matches(pat, folder),
    ensures
        pattern_matches(pat, key),
{
    let p = pattern_segments(pat);
    let f = text::segments(folder);
    let k = text::segments(key);
    text::lemma_segments_prefix(key, folder.len() as int);
    assert forall|i: int| 0 <= i < p.len() implies glob(#[trigger] p[i], k[i]) by {
        assert(k[i] == f[i]);
        assert(glob(p[i], f[i]));
    }
}

/// Whether a text holds no character `c`.
pub open spec fn without(s: Seq<char>, c: char) -> bool {
    forall|i: int| 0 <= i < s.len() ==> #[trigger] s[i] != c
}

/// Whether the last segment of a path without `/` at its end is `name`.
pub open spec fn named(path: Seq<char>, name: Seq<char>) -> bool {
    &&& path.len() >= name.len()
    &&& path.skip(path.len() - name.len()) == name
    &&& path.len() == name.len() || path[path.len() - name.len() - 1] == '/'
}

proof fn lemma_segment_literal(s: Seq<char>, c: char, i: int)
    requires
        without(s, c),
        0 <= i < text::segments(s).len(),
    ensures
        without(text::segments(s)[i], c),
    decreases s.len(),
{
    if s.len() > 0 {
        let d = s.drop_last();
        let init = text::segments(d);
        text::lemma_segments_nonempty(d);
        assert(without(d, c)) by {
            assert forall|j: int| 0 <= j < d.len() implies #[trigger] d[j] != c by {
                assert(d[j] == s[j]);
            }
        }
        assert(s[s.len() - 1] != c);
        if i < init.len() {
            lemma_segment_literal(d, c, i);
        }
    }
}

proof fn lemma_literal_globs(p: Seq<Seq<char>>, k: Seq<Seq<char>>)
    requires
        forall|i: int| 0 <= i < p.len() ==> without(#[trigger] p[i], '*'),
    ensures
        prefix_matches(p, k) == (p.len() <= k.len() && k.take(p.len() as int) == p),
{
    assert forall|i: int| 0 <= i < p.len() implies #[trigger] glob(p[i], k[i]) == (p[i] == k[i]) by {
        assert(without(p[i], '*'));
        law_literal_glob(p[i], k[i]);
    }
    if p.len() <= k.len() {
        if prefix_matches(p, k) {
            assert(k.take(p.len() as int) =~= p);
        }
        if k.take(p.len() as int) == p {
            assert forall|i: int| 0 <= i < p.len() implies glob(#[trigger] p[i], k[i]) by {
                assert(k.take(p.len() as int)[i] == k[i]);
            }
        }
    }
}

/// A folder pattern without `*` ignores that folder and everything under it, and
/// nothing else: the keys that start with the text of the pattern.
pub proof fn law_folder_pattern_is_a_prefix(pat: Seq<char>, key: Seq<char>)
    requires
        pat.len() > 0,
        pat[pat.len() - 1] == '/',
        without(pat, '*'),
    ensures
        pattern_matches(pat, key) == (key.len() >= pat.len() && key.take(pat.len() as int) == pat),
{
    let s = pat.drop_last();
    let p = text::segments(s);
    let k = text::segments(key);
    assert(pat =~= s.push('/'));
    text::lemma_segments_nonempty(s);
    assert forall|i: int| 0 <= i < p.len() implies without(#[trigger] p[i], '*') by {
        assert(without(s, '*')) by {
            assert forall|j: int| 0 <= j < s.len() implies #[trigger] s[j] != '*' by {
                assert(s[j] == pat[j]);
            }
        }
        lemma_segment_literal(s, '*', i);
    }
    lemma_literal_globs(p, k);
    if key.len() >= pat.len() && key.take(pat.len() as int) == pat {
        let y = key.skip(pat.len() as int);
        assert(key =~= s.push('/') + y);
        text::lemma_segments_concat(s, y);
        text::lemma_segments_nonempty(y);
        assert(k.take(p.len() as int) =~= p);
    }
    if pattern_matches(pat, key) {
        let (x, y) = text::lemma_split_at(key, p.len() as int);
        text::lemma_segments_injective(x, s);
        assert(key.take(pat.len() as int) =~= pat);
    }
}

/// A pattern with a `/` inside and without `*` ignores exactly the key that is
/// its text.
pub proof fn law_path_pattern_is_one_key(pat: Seq<char>, key: Seq<char>, slash: int)
    requires
        0 <= slash < pat.len() - 1,
        pat[slash] == '/',
        pat[pat.len() - 1] != '/',
        without(pat, '*'),
    ensures
        pattern_matches(pat, key) == (key == pat),
{
    let p = text::segments(pat);
    let k = text::segments(key);
    lemma_two_segments(pat, slash);
    assert forall|i: int| 0 <= i < p.len() implies without(#[trigger] p[i], '*') by {
        lemma_segment_literal(pat, '*', i);
    }
    lemma_literal_globs(p, k);
    if k.len() == p.len() && k.take(p.len() as int) == p {
        assert(k.take(p.len() as int) =~= k);
        text::lemma_segments_injective(key, pat);
    }
    if key == pat {
        assert(k.take(p.len() as int) =~= p);
    }
}

proof fn lemma_two_segments(s: Seq<char>, slash: int)
    requires
        0 <= slash < s.len(),
        s[slash] == '/',
    ensures
        text::segments(s).len() >= 2,
{
    let a = s.take(slash);
    let b = s.skip(slash + 1);
    assert(s =~= a.push('/') + b);
    text::lemma_segments_concat(a, b);
    text::lemma_segments_nonempty(a);
    text::lemma_segments_nonempty(b);
}

proof fn lemma_last_segment(path: Seq<char>, name: Seq<char>)
    requires
        without(name, '/'),
    ensures
        (text::last_segment(path) == name) == named(path, name),
{
    let k = text::segments(path);
    text::law_segments_rejoin(path);
    if k.len() == 1 {
        assert(k[0] == path);
        if named(path, name) && path.len() > name.len() {
            let at = path.len() - name.len() - 1;
            lemma_two_segments(path, at);
        }
        if path == name {
            assert(path.skip(0) =~= name);
        }
        if named(path, name) && path.len() == name.len() {
            assert(path.skip(0) =~= path);
        }
    } else {
        let (x, y) = text::lemma_split_at(path, k.len() - 1);
        assert(text::segments(y) =~= seq![k.last()]);
        text::law_segments_rejoin(y);
        assert(text::segments(y)[0] == y);
        assert(k.last() == y);
        assert forall|j: int| 0 <= j < y.len() implies #[trigger] y[j] != '/' by {
            assert(text::segments(y)[0][j] != '/');
        }
        if y == name {
            assert(path.skip(path.len() - name.len()) =~= name);
        }
        if named(path, name) {
            let rest = path.skip(path.len() - name.len());
            if name.len() > y.len() {
                // The slash before the last segment would be in the name.
                let at = name.len() - y.len() - 1;
                assert(rest[at] == path[x.len() as int]);
                assert(path[x.len() as int] == '/');
            } else if name.len() < y.len() {
                let at = y.len() - name.len() - 1;
                assert(path[path.len() - name.len() - 1] == y[at]);
            } else {
                assert(rest =~= y);
            }
        }
    }
}

/// A bare name without `*` ignores exactly the keys whose last segment it is, at
/// any depth, files and folders alike.
pub proof fn law_name_pattern_is_a_last_segment(pat: Seq<char>, path: Seq<char>)
    requires
        pat.len() > 0,
        without(pat, '/'),
        without(pat, '*'),
    ensures
        (path.len() == 0 || path[path.len() - 1] != '/') ==> pattern_matches(pat, path) == named(
            path,
            pat,
        ),
        pattern_matches(pat, path.push('/')) == named(path, pat),
{
    text::lemma_one_segment(pat);
    assert(pat[pat.len() - 1] != '/');
    let folder = path.push('/');
    assert(folder.drop_last() =~= path);
    law_literal_glob(pat, text::last_segment(path));
    lemma_last_segment(path, pat);
}

/// A `*` stands for any run of characters: what comes before it in the pattern
/// begins the text, and what comes after it matches some rest.
pub proof fn law_star_stands_for_any_run(head: Seq<char>, tail: Seq<char>, s: Seq<char>)
    requires
        without(head, '*'),
    ensures
        glob(head.push('*') + tail, s) == (head.len() <= s.len() && s.take(head.len() as int)
            == head && exists|n: int|
            head.len() <= n <= s.len() && #[trigger] glob(tail, s.skip(n))),
    decreases head.len(),
{
    let p = head.push('*') + tail;
    if head.len() == 0 {
        lemma_leading_star(tail, s);
        assert(p =~= seq!['*'] + tail);
        assert(s.take(0) =~= head);
    } else {
        let h = head.drop_first();
        let q = p.drop_first();
        assert(q =~= h.push('*') + tail);
        assert(p[0] == head[0]);
        assert forall|i: int| 0 <= i < h.len() implies #[trigger] h[i] != '*' by {
            assert(h[i] == head[i + 1]);
        }
        if s.len() > 0 {
            let r = s.drop_first();
            law_star_stands_for_any_run(h, tail, r);
            if s[0] == head[0] && h.len() <= r.len() && r.take(h.len() as int) == h {
                assert(s.take(head.len() as int) =~= head) by {
                    assert forall|i: int| 0 <= i < head.len() implies s[i] == head[i] by {
                        if i > 0 {
                            assert(r.take(h.len() as int)[i - 1] == h[i - 1]);
                        }
                    }
                }
            }
            if head.len() <= s.len() && s.take(head.len() as int) == head {
                assert(s.take(head.len() as int)[0] == head[0]);
                assert(r.take(h.len() as int) =~= h) by {
                    assert forall|i: int| 0 <= i < h.len() implies r[i] == h[i] by {
                        assert(s.take(head.len() as int)[i + 1] == head[i + 1]);
                    }
                }
            }
            if exists|n: int| h.len() <= n <= r.len() && #[trigger] glob(tail, r.skip(n)) {
                let n = choose|n: int| h.len() <= n <= r.len() && #[trigger] glob(tail, r.skip(n));
                assert(s.skip(n + 1) =~= r.skip(n));
                assert(glob(tail, s.skip(n + 1)));
            }
            if exists|n: int| head.len() <= n <= s.len() && #[trigger] glob(tail, s.skip(n)) {
                let n = choose|n: int|
                    head.len() <= n <= s.len() && #[trigger] glob(tail, s.skip(n));
                assert(s.skip(n) =~= r.skip(n - 1));
                assert(glob(tail, r.skip(n - 1)));
            }
        }
    }
}

proof fn lemma_leading_star(tail: Seq<char>, s: Seq<char>)
    ensures
        glob(seq!['*'] + tail, s) == exists|n: int|
            0 <= n <= s.len() && #[trigger] glob(tail, s.skip(n)),
    decreases s.len(),
{
    let p = seq!['*'] + tail;
    assert(p[0] == '*');
    assert(p.drop_first() =~= tail);
    assert(s.skip(0) =~= s);
    assert(glob(tail, s) == glob(tail, s.skip(0)));
    if s.len() > 0 {
        let r = s.drop_first();
        lemma_leading_star(tail, r);
        if exists|n: int| 0 <= n <= r.len() && #[trigger] glob(tail, r.skip(n)) {
            let n = choose|n: int| 0 <= n <= r.len() && #[trigger] glob(tail, r.skip(n));
            assert(s.skip(n + 1) =~= r.skip(n));
        }
        if exists|n: int| 0 <= n <= s.len() && #[trigger] glob(tail, s.skip(n)) {
            let n = choose|n: int| 0 <= n <= s.len() && #[trigger] glob(tail, s.skip(n));
            if n > 0 {
                assert(s.skip(n) =~= r.skip(n - 1));
            }
        }
    } else if exists|n: int| 0 <= n <= s.len() && #[trigger] glob(tail, s.skip(n)) {
        let n = choose|n: int| 0 <= n <= s.len() && #[trigger] glob(tail, s.skip(n));
        assert(n == 0);
    }
}

/// A pattern with a `/` matches segment by segment, from the first one on: a `*`
/// never stands for a `/`. Behind the last `/` of a pattern that does not end
/// with one, exactly one segment is left.
pub proof fn law_patterns_match_by_segments(
    a: Seq<char>,
    b: Seq<char>,
    x: Seq<char>,
    y: Seq<char>,
)
    requires
        without(a, '/'),
        without(x, '/'),
        b.len() > 0,
    ensures
        !without(b, '/') ==> pattern_matches(a.push('/') + b, x.push('/') + y) == (glob(a, x)
            && pattern_matches(b, y)),
        without(b, '/') ==> pattern_matches(a.push('/') + b, x.push('/') + y) == (glob(a, x)
            && without(y, '/') && glob(b, y)),
        !pattern_matches(a.push('/') + b, x),
{
    let pat = a.push('/') + b;
    let key = x.push('/') + y;
    let t = text::strip_slash(b);
    assert(text::strip_slash(pat) =~= a.push('/') + t);
    assert(pat.last() == b.last());
    text::lemma_segments_concat(a, t);
    text::lemma_segments_concat(x, y);
    text::lemma_one_segment(a);
    text::lemma_one_segment(x);
    text::lemma_segments_nonempty(t);
    text::lemma_segments_nonempty(y);
    let p = text::segments(t);
    let k = text::segments(y);
    let ps = seq![a] + p;
    let ks = seq![x] + k;
    assert(pattern_segments(pat) == ps);
    assert(text::segments(key) == ks);
    if prefix_matches(ps, ks) {
        assert(glob(ps[0], ks[0]));
        assert forall|i: int| 0 <= i < p.len() implies glob(#[trigger] p[i], k[i]) by {
            assert(glob(ps[i + 1], ks[i + 1]));
        }
    }
    if glob(a, x) && prefix_matches(p, k) {
        assert forall|i: int| 0 <= i < ps.len() implies glob(#[trigger] ps[i], ks[i]) by {
            if i > 0 {
                assert(glob(p[i - 1], k[i - 1]));
            }
        }
    }
    if without(b, '/') {
        assert(b[b.len() - 1] != '/');
        text::lemma_one_segment(b);
        if without(y, '/') {
            text::lemma_one_segment(y);
            if glob(b, y) {
                assert(prefix_matches(p, k));
            }
        } else {
            let j = choose|j: int| 0 <= j < y.len() && y[j] == '/';
            lemma_two_segments(y, j);
        }
        if k.len() == 1 {
            text::law_segments_rejoin(y);
            assert(k[0] == y);
            assert forall|j: int| 0 <= j < y.len() implies #[trigger] y[j] != '/' by {
                assert(k[0][j] != '/');
            }
        }
    } else if !text::ends_with_char(b, '/') {
        let j = choose|j: int| 0 <= j < b.len() && b[j] == '/';
        lemma_two_segments(b, j);
    }
}

/// A folder pattern of one segment matches what is in a folder at the top whose
/// name matches, the folder itself included.
pub proof fn law_folder_pattern_of_one_segment(a: Seq<char>, x: Seq<char>, y: Seq<char>)
    requires
        without(a, '/'),
        without(x, '/'),
    ensures
        pattern_matches(a.push('/'), x.push('/') + y) == glob(a, x),
        !pattern_matches(a.push('/'), x),
{
    let pat = a.push('/');
    assert(text::strip_slash(pat) =~= a);
    text::lemma_one_segment(a);
    text::lemma_one_segment(x);
    text::lemma_segments_concat(x, y);
    text::lemma_segments_nonempty(y);
    let k = text::segments(x.push('/') + y);
    assert(k[0] == x);
    if glob(a, x) {
        assert(prefix_matches(seq![a], k));
    }
}

/// A pattern without `/` is matched with the last segment alone, at any depth.
pub proof fn law_name_pattern_at_any_depth(a: Seq<char>, x: Seq<char>, name: Seq<char>)
    requires
        a.len() > 0,
        without(a, '/'),
        without(name, '/'),
    ensures
        pattern_matches(a, name) == glob(a, name),
        name.len() > 0 ==> pattern_matches(a, x.push('/') + name) == glob(a, name),
        pattern_matches(a, name.push('/')) == glob(a, name),
        pattern_matches(a, (x.push('/') + name).push('/')) == glob(a, name),
{
    assert(a[a.len() - 1] != '/');
    text::lemma_one_segment(a);
    text::lemma_one_segment(name);
    text::lemma_segments_concat(x, name);
    text::lemma_segments_nonempty(x);
    let deep = x.push('/') + name;
    assert(text::segments(deep).last() == name);
    assert(name.push('/').drop_last() =~= name);
    assert(deep.push('/').drop_last() =~= deep);
    if name.len() > 0 {
        assert(name[name.len() - 1] != '/');
        assert(deep.last() == name[name.len() - 1]);
    } else {
        assert(name =~= Seq::<char>::empty());
    }
}

/// A pattern is accepted if and only if it is not empty, has no leading `/`, no
/// two `/` or `*` side by side, and none of `!`, `\`, `[`, `]` and `?`.
pub proof fn law_accepted_patterns(pat: Seq<char>)
    ensures
        pattern_fault(pat) is None <==> {
            &&& pat.len() > 0
            &&& pat[0] != '/'
            &&& forall|i: int|
                0 <= i < pat.len() - 1 ==> !(#[trigger] pat[i] == '/' && pat[i + 1] == '/') && !(
                pat[i] == '*' && pat[i + 1] == '*')
            &&& without(pat, '!')
            &&& without(pat, '\\')
            &&& without(pat, '[')
            &&& without(pat, ']')
            &&& without(pat, '?')
        },
{
    let stars = seq!['*', '*'];
    lemma_without(pat, '!');
    lemma_without(pat, '\\');
    lemma_without(pat, '[');
    lemma_without(pat, ']');
    lemma_without(pat, '?');
    assert(text::contains_text(pat, stars) == exists|i: int|
        0 <= i < pat.len() - 1 && #[trigger] pat[i] == '*' && pat[i + 1] == '*') by {
        if text::contains_text(pat, stars) {
            let i = choose|i: int| #[trigger] text::starts_with_text_at(pat, stars, i);
            assert(pat.subrange(i, i + 2)[0] == stars[0]);
            assert(pat.subrange(i, i + 2)[1] == stars[1]);
            assert(pat[i] == '*' && pat[i + 1] == '*');
        }
        if exists|i: int| 0 <= i < pat.len() - 1 && #[trigger] pat[i] == '*' && pat[i + 1] == '*' {
            let i = choose|i: int|
                0 <= i < pat.len() - 1 && #[trigger] pat[i] == '*' && pat[i + 1] == '*';
            assert(pat.subrange(i, i + 2) =~= stars);
            assert(text::starts_with_text_at(pat, stars, i));
        }
    }
    if pat.len() > 0 && pat[0] != '/' {
        let s = text::strip_slash(pat);
        assert(s.len() > 0);
        lemma_empty_segment(s);
        let empty_inside = exists|i: int|
            0 <= i < text::segments(s).len() && (#[trigger] text::segments(s)[i]).len() == 0;
        let double = exists|i: int|
            0 <= i < pat.len() - 1 && #[trigger] pat[i] == '/' && pat[i + 1] == '/';
        if double {
            let i = choose|i: int|
                0 <= i < pat.len() - 1 && #[trigger] pat[i] == '/' && pat[i + 1] == '/';
            if i + 1 < s.len() {
                assert(s[i] == '/' && s[i + 1] == '/');
            } else {
                assert(s.last() == '/');
            }
            assert(empty_inside);
        }
        if empty_inside {
            if s.last() == '/' {
                let i = s.len() - 1;
                assert(pat[i] == '/' && pat[i + 1] == '/');
            } else {
                let i = choose|i: int|
                    0 <= i < s.len() - 1 && #[trigger] s[i] == '/' && s[i + 1] == '/';
                assert(pat[i] == '/' && pat[i + 1] == '/');
            }
            assert(double);
        }
        assert(empty_inside == double);
        assert(pattern_segments(pat) == text::segments(s));
        assert((exists|i: int|
            0 <= i < pattern_segments(pat).len() && (#[trigger] pattern_segments(pat)[i]).len()
                == 0) == empty_inside);
        let paired = exists|i: int|
            0 <= i < pat.len() - 1 && #[trigger] pat[i] == '*' && pat[i + 1] == '*';
        let apart = forall|i: int|
            0 <= i < pat.len() - 1 ==> !(#[trigger] pat[i] == '/' && pat[i + 1] == '/') && !(pat[i]
                == '*' && pat[i + 1] == '*');
        if double {
            let i = choose|i: int|
                0 <= i < pat.len() - 1 && #[trigger] pat[i] == '/' && pat[i + 1] == '/';
            assert(!apart);
        }
        if paired {
            let i = choose|i: int|
                0 <= i < pat.len() - 1 && #[trigger] pat[i] == '*' && pat[i + 1] == '*';
            assert(!apart);
        }
        assert(apart == (!double && !paired));
    }
}

proof fn lemma_without(s: Seq<char>, c: char)
    ensures
        without(s, c) == !s.contains(c),
{
    if !without(s, c) {
        let i = choose|i: int| 0 <= i < s.len() && #[trigger] s[i] == c;
        assert(s.contains(c));
    }
}

proof fn lemma_empty_segment(s: Seq<char>)
    ensures
        (exists|i: int|
            0 <= i < text::segments(s).len() && (#[trigger] text::segments(s)[i]).len() == 0) == (
        s.len() == 0 || s[0] == '/' || s.last() == '/' || exists|i: int|
            0 <= i < s.len() - 1 && #[trigger] s[i] == '/' && s[i + 1] == '/'),
    decreases s.len(),
{
    let all = text::segments(s);
    if s.len() == 0 {
        assert(all[0].len() == 0);
    } else {
        let d = s.drop_last();
        let init = text::segments(d);
        lemma_empty_segment(d);
        text::lemma_segments_nonempty(d);
        if s.last() == '/' {
            assert(all[init.len() as int].len() == 0);
        } else {
            // The last segment is not empty; the others are those of `d`.
            assert(all.last().len() > 0);
            lemma_last_empty(d);
            if exists|i: int| 0 <= i < all.len() && (#[trigger] all[i]).len() == 0 {
                let i = choose|i: int| 0 <= i < all.len() && (#[trigger] all[i]).len() == 0;
                assert(init[i].len() == 0);
                lemma_inner_empty(d, i);
                if d[0] == '/' {
                    assert(s[0] == '/');
                } else {
                    let j = choose|j: int|
                        0 <= j < d.len() - 1 && #[trigger] d[j] == '/' && d[j + 1] == '/';
                    assert(s[j] == '/' && s[j + 1] == '/');
                }
            }
            if s[0] == '/' {
                assert(d.len() > 0);
                assert(d[0] == '/');
                lemma_first_empty(d);
                assert(all[0] == init[0]);
                assert(all[0].len() == 0);
            } else if exists|i: int| 0 <= i < s.len() - 1 && #[trigger] s[i] == '/' && s[i + 1]
                == '/' {
                let i = choose|i: int|
                    0 <= i < s.len() - 1 && #[trigger] s[i] == '/' && s[i + 1] == '/';
                assert(i + 1 < d.len());
                let x = d.take(i);
                let y = d.skip(i + 2);
                let empty = Seq::<char>::empty();
                let w = empty.push('/') + y;
                assert(d =~= x.push('/') + w);
                text::lemma_segments_concat(x, w);
                text::lemma_segments_concat(empty, y);
                text::lemma_segments_nonempty(x);
                text::lemma_segments_nonempty(y);
                let n = text::segments(x).len() as int;
                assert(init[n] == text::segments(w)[0]);
                assert(text::segments(w)[0] == text::segments(empty)[0]);
                assert(init[n].len() == 0);
                assert(n < init.len() - 1);
                assert(all[n] == init[n]);
                assert(all[n].len() == 0);
            }
        }
    }
}

/// The last segment is empty if and only if the text is, or ends with `/`.
proof fn lemma_last_empty(s: Seq<char>)
    ensures
        (text::segments(s).last().len() == 0) == (s.len() == 0 || s.last() == '/'),
{
    if s.len() > 0 {
        text::lemma_segments_nonempty(s.drop_last());
    }
}

/// An empty segment that is not the last one has a `/` right behind the start
/// or another `/`.
proof fn lemma_inner_empty(s: Seq<char>, i: int)
    requires
        0 <= i < text::segments(s).len() - 1,
        text::segments(s)[i].len() == 0,
    ensures
        s.len() > 0,
        s[0] == '/' || exists|j: int|
            0 <= j < s.len() - 1 && #[trigger] s[j] == '/' && s[j + 1] == '/',
{
    let (x, y) = text::lemma_split_at(s, i + 1);
    assert(text::segments(x).last() == text::segments(s)[i]);
    lemma_last_empty(x);
    if x.len() == 0 {
        assert(s[0] == '/');
    } else {
        let j = x.len() - 1;
        assert(s[j] == '/' && s[j + 1] == '/');
    }
}

proof fn lemma_first_empty(s: Seq<char>)
    requires
        s.len() > 0,
        s[0] == '/',
    ensures
        text::segments(s).len() >= 2,
        text::segments(s)[0].len() == 0,
{
    let empty = Seq::<char>::empty();
    let y = s.skip(1);
    assert(s =~= empty.push('/') + y);
    text::lemma_segments_concat(empty, y);
    text::lemma_segments_nonempty(y);
    assert(text::segments(empty)[0].len() == 0);
}

/// Patterns are accepted together if and only if each of them is.
pub proof fn law_patterns_are_checked_one_by_one(patterns: Seq<Seq<char>>)
    ensures
        first_pattern_error(patterns) is None <==> forall|i: int|
            0 <= i < patterns.len() ==> pattern_fault(#[trigger] patterns[i]) is None,
    decreases patterns.len(),
{
    if patterns.len() > 0 {
        let rest = patterns.drop_first();
        law_patterns_are_checked_one_by_one(rest);
        if pattern_fault(patterns[0]) is None {
            if first_pattern_error(rest) is None {
                assert forall|i: int| 0 <= i < patterns.len() implies pattern_fault(
                    #[trigger] patterns[i],
                ) is None by {
                    if i > 0 {
                        assert(patterns[i] == rest[i - 1]);
                    }
                }
            }
            if forall|i: int|
                0 <= i < patterns.len() ==> pattern_fault(#[trigger] patterns[i]) is None {
                assert forall|i: int| 0 <= i < rest.len() implies pattern_fault(
                    #[trigger] rest[i],
                ) is None by {
                    assert(rest[i] == patterns[i + 1]);
                }
            }
        }
    }
}

/// What a set of patterns without `*` ignores: a key that starts with a folder
/// pattern, a key that is a path pattern, and a key whose last name is a name
/// pattern; and nothing else.
pub proof fn law_sets_ignore_what_a_pattern_names(set: &IgnoreSet, key: &str, r: bool)
    requires
        call_ensures(IgnoreSet::matches, (set, key), r),
        key@.len() > 0,
        forall|i: int| 0 <= i < set@.len() ==> (#[trigger] set@[i]).len() > 0 && without(set@[i], '*'),
    ensures
        r <==> exists|i: int|
            0 <= i < set@.len() && ({
                let pat = #[trigger] set@[i];
                let path = if key@[key@.len() - 1] == '/' {
                    key@.drop_last()
                } else {
                    key@
                };
                ||| pat[pat.len() - 1] == '/' && key@.len() >= pat.len() && key@.take(
                    pat.len() as int,
                ) == pat
                ||| pat[pat.len() - 1] != '/' && pat.contains('/') && key@ == pat
                ||| without(pat, '/') && named(path, pat)
            }),
{
    let path = if key@[key@.len() - 1] == '/' {
        key@.drop_last()
    } else {
        key@
    };
    assert forall|i: int| 0 <= i < set@.len() implies pattern_matches(#[trigger] set@[i], key@) == ({
        let pat = set@[i];
        ||| pat[pat.len() - 1] == '/' && key@.len() >= pat.len() && key@.take(pat.len() as int)
            == pat
        ||| pat[pat.len() - 1] != '/' && pat.contains('/') && key@ == pat
        ||| without(pat, '/') && named(path, pat)
    }) by {
        let pat = set@[i];
        if pat[pat.len() - 1] == '/' {
            law_folder_pattern_is_a_prefix(pat, key@);
            assert(!without(pat, '/'));
        } else if pat.contains('/') {
            let slash = choose|j: int| 0 <= j < pat.len() && pat[j] == '/';
            law_path_pattern_is_one_key(pat, key@, slash);
            assert(!without(pat, '/'));
        } else {
            assert(without(pat, '/'));
            if key@[key@.len() - 1] == '/' {
                assert(path.push('/') =~= key@);
            }
            law_name_pattern_is_a_last_segment(pat, path);
        }
    }
}

} // verus!
