//! Vault-relative path descriptors used by the planner and the store trait.
//!
//! An [`Entity`] names a file or folder relative to the vault root. Folders
//! end with `/`; separators are `/`; there is never a leading `/`.

use vstd::prelude::*;
use crate::error;
use crate::error::{Error, ErrorView};
use crate::text;
use crate::text::{
    cat2, char_is_control, chars_blank, chars_have, chars_of, debug_string, ends_with_slash,
    split_segments,
};

verus! {

/// A vault-relative file or folder descriptor.
#[derive(Debug, PartialEq, Eq)]
pub struct Entity {
    /// Vault-relative key. No leading `/`. Folders end with `/`.
    pub key: String,
    /// Byte size; 0 for folders.
    pub size: u64,
    /// Client-visible mtime in ms since epoch, when known.
    pub mtime_ms: Option<u64>,
    /// Remote opaque token (etag) when known; the planner never compares it.
    pub etag: Option<String>,
}

/// The mathematical view of an [`Entity`].
pub struct EntityView {
    pub key: Seq<char>,
    pub size: u64,
    pub mtime_ms: Option<u64>,
    pub etag: Option<Seq<char>>,
}

impl View for Entity {
    type V = EntityView;

    open spec fn view(&self) -> EntityView {
        EntityView {
            key: self.key@,
            size: self.size,
            mtime_ms: self.mtime_ms,
            etag: text::opt_text(self.etag),
        }
    }
}

impl EntityView {
    /// Whether the key names a folder.
    pub open spec fn folder(self) -> bool {
        text::ends_with_char(self.key, '/')
    }
}

/// The views of a sequence of entities.
pub open spec fn entities(v: Seq<Entity>) -> Seq<EntityView> {
    Seq::new(v.len(), |i: int| v[i]@)
}

/// The view of an optional entity.
pub open spec fn opt_entity(o: Option<Entity>) -> Option<EntityView> {
    match o {
        Some(e) => Some(e@),
        None => None,
    }
}

impl Clone for Entity {
    fn clone(&self) -> (r: Self)
        ensures
            r == *self,
    {
        Entity {
            key: self.key.clone(),
            size: self.size,
            mtime_ms: self.mtime_ms,
            etag: clone_opt_string(&self.etag),
        }
    }
}

/// A copy of an optional string.
pub fn clone_opt_string(o: &Option<String>) -> (r: Option<String>)
    ensures
        r == *o,
{
    match o {
        Some(s) => Some(s.clone()),
        None => None,
    }
}

impl Entity {
    /// True when this key names a folder (trailing `/`).
    pub fn is_folder(&self) -> (r: bool)
        ensures
            r == self@.folder(),
    {
        ends_with_slash(self.key.as_str())
    }
}

/// What is wrong with one segment of a key, if anything.
pub open spec fn segment_fault(seg: Seq<char>) -> Option<Seq<char>> {
    if seg.len() == 0 {
        Some("key contains an empty path segment: "@)
    } else if text::is_blank(seg) {
        Some("key contains a whitespace-only path segment: "@)
    } else if seg == seq!['.'] || seg == seq!['.', '.'] {
        Some("key contains a '.' or '..' path segment: "@)
    } else {
        None
    }
}

/// The first fault among the segments from `i` on. A last segment that is
/// empty comes from the trailing `/` of a folder key and is no fault.
pub open spec fn first_fault(segs: Seq<Seq<char>>, i: int) -> Option<Seq<char>>
    decreases segs.len() - i,
{
    if i < 0 || i >= segs.len() {
        None
    } else if segs[i].len() == 0 && i + 1 == segs.len() {
        None
    } else if segment_fault(segs[i]) is Some {
        segment_fault(segs[i])
    } else {
        first_fault(segs, i + 1)
    }
}

/// Whether some character of the text is a control character.
pub open spec fn has_control(s: Seq<char>) -> bool {
    exists|i: int| 0 <= i < s.len() && text::is_control(#[trigger] s[i])
}

/// Why a key is not valid, as a message; `None` for a valid key.
pub open spec fn key_fault(key: Seq<char>) -> Option<Seq<char>> {
    if key.len() == 0 {
        Some("key must not be empty"@)
    } else if key[0] == '/' {
        Some("key must not start with '/': "@ + text::debug_text(key))
    } else if key.contains('\\') {
        Some("key must not contain backslash: "@ + text::debug_text(key))
    } else if has_control(key) {
        Some("key must not contain control characters: "@ + text::debug_text(key))
    } else {
        match first_fault(text::segments(key), 0) {
            Some(m) => Some(m + text::debug_text(key)),
            None => None,
        }
    }
}

/// Whether a key is a valid vault-relative key.
pub open spec fn valid_key(key: Seq<char>) -> bool {
    key_fault(key) is None
}

/// What [`ensure_valid_key`] returns.
pub open spec fn key_check(key: Seq<char>) -> Result<(), ErrorView> {
    match key_fault(key) {
        Some(m) => Err(ErrorView::InvalidKey(m)),
        None => Ok(()),
    }
}

/// Whether some character is a control character.
fn chars_have_control(c: &Vec<char>) -> (r: bool)
    ensures
        r == has_control(c@),
{
    let mut i: usize = 0;
    while i < c.len()
        invariant
            i <= c@.len(),
            forall|j: int| 0 <= j < i ==> !text::is_control(#[trigger] c@[j]),
        decreases c@.len() - i,
    {
        if char_is_control(c[i]) {
            assert(text::is_control(c@[i as int]));
            return true;
        }
        i = i + 1;
    }
    false
}

/// What is wrong with one segment, if anything.
fn check_segment(seg: &Vec<char>) -> (r: Option<&'static str>)
    ensures
        match r {
            Some(m) => segment_fault(seg@) == Some(m@),
            None => segment_fault(seg@) is None,
        },
{
    if seg.len() == 0 {
        return Some("key contains an empty path segment: ");
    }
    if chars_blank(seg) {
        return Some("key contains a whitespace-only path segment: ");
    }
    let dot = seg.len() == 1 && seg[0] == '.';
    let dots = seg.len() == 2 && seg[0] == '.' && seg[1] == '.';
    assert(dot == (seg@ =~= seq!['.']));
    assert(dots == (seg@ =~= seq!['.', '.']));
    if dot || dots {
        return Some("key contains a '.' or '..' path segment: ");
    }
    None
}

/// Validate a vault-relative key.
///
/// Rejects the empty string, a leading `/`, any backslash and any control
/// character. Path segments must not be `.`, `..`, whitespace-only, or empty
/// (double slash). A single trailing empty segment from a folder key's final
/// `/` is allowed (e.g. `notes/`).
pub fn ensure_valid_key(key: &str) -> (r: Result<(), Error>)
    ensures
        error::unit_view(r) == key_check(key@),
{
    let c = chars_of(key);
    if c.len() == 0 {
        return Err(Error::InvalidKey("key must not be empty".to_owned()));
    }
    if c[0] == '/' {
        let d = debug_string(key);
        return Err(Error::InvalidKey(cat2("key must not start with '/': ", d.as_str())));
    }
    if chars_have(&c, '\\') {
        let d = debug_string(key);
        return Err(Error::InvalidKey(cat2("key must not contain backslash: ", d.as_str())));
    }
    if chars_have_control(&c) {
        let d = debug_string(key);
        return Err(
            Error::InvalidKey(cat2("key must not contain control characters: ", d.as_str())),
        );
    }
    let segs = split_segments(&c);
    let mut i: usize = 0;
    while i < segs.len()
        invariant
            i <= segs@.len(),
            text::char_seqs(segs@) == text::segments(key@),
            key@.len() > 0,
            key@[0] != '/',
            !key@.contains('\\'),
            !has_control(key@),
            first_fault(text::segments(key@), 0) == first_fault(text::segments(key@), i as int),
        decreases segs@.len() - i,
    {
        assert(text::segments(key@)[i as int] == segs@[i as int]@);
        if segs[i].len() == 0 && i + 1 == segs.len() {
            return Ok(());
        }
        if let Some(m) = check_segment(&segs[i]) {
            let d = debug_string(key);
            return Err(Error::InvalidKey(cat2(m, d.as_str())));
        }
        i = i + 1;
    }
    Ok(())
}

/// Fixture constructor for a file entity.
pub fn file(key: &str, size: u64, mtime_ms: Option<u64>) -> (r: Entity)
    ensures
        r@ == (EntityView { key: key@, size, mtime_ms, etag: None }),
{
    Entity { key: key.to_owned(), size, mtime_ms, etag: None }
}

/// The key of a folder: one `/` at the end.
pub open spec fn folder_key(key: Seq<char>) -> Seq<char> {
    if text::ends_with_char(key, '/') {
        key
    } else {
        key.push('/')
    }
}

/// The entity of a folder view.
pub open spec fn folder_view(key: Seq<char>) -> EntityView {
    EntityView { key, size: 0, mtime_ms: None, etag: None }
}

/// Fixture constructor for a folder entity. The trailing `/` is normalized.
pub fn folder(key: &str) -> (r: Entity)
    ensures
        r@ == folder_view(folder_key(key@)),
        r@.folder(),
{
    let mut k = key.to_owned();
    if !ends_with_slash(key) {
        k.push('/');
    }
    Entity { key: k, size: 0, mtime_ms: None, etag: None }
}

proof fn lemma_no_fault(segs: Seq<Seq<char>>, i: int, j: int)
    requires
        0 <= i <= j < segs.len(),
        first_fault(segs, i) is None,
    ensures
        segment_fault(segs[j]) is None || (segs[j].len() == 0 && j + 1 == segs.len()),
    decreases j - i,
{
    if i < j {
        lemma_no_fault(segs, i + 1, j);
    }
}

proof fn lemma_faultless(segs: Seq<Seq<char>>, i: int)
    requires
        0 <= i <= segs.len(),
        forall|j: int|
            i <= j < segs.len() ==> segment_fault(#[trigger] segs[j]) is None || (segs[j].len()
                == 0 && j + 1 == segs.len()),
    ensures
        first_fault(segs, i) is None,
    decreases segs.len() - i,
{
    if i < segs.len() {
        assert(segment_fault(segs[i]) is None || (segs[i].len() == 0 && i + 1 == segs.len()));
        lemma_faultless(segs, i + 1);
    }
}

/// A valid key is relative and stays below its root: it has no leading `/`, no
/// backslash and no control character, and none of its segments is empty,
/// blank, `.` or `..`, except that a trailing `/` may mark a folder.
pub proof fn law_valid_key_stays_below(key: Seq<char>)
    requires
        valid_key(key),
    ensures
        key.len() > 0,
        key[0] != '/',
        !key.contains('\\'),
        forall|i: int| 0 <= i < key.len() ==> !text::is_control(#[trigger] key[i]),
        forall|i: int|
            0 <= i < text::segments(key).len() ==> {
                let seg = #[trigger] text::segments(key)[i];
                ||| seg.len() == 0 && i + 1 == text::segments(key).len() && text::ends_with_char(
                    key,
                    '/',
                )
                ||| seg.len() > 0 && !text::is_blank(seg) && seg != seq!['.'] && seg != seq![
                    '.',
                    '.',
                ]
            },
{
    let segs = text::segments(key);
    assert forall|i: int| 0 <= i < segs.len() implies ({
        let seg = #[trigger] segs[i];
        ||| seg.len() == 0 && i + 1 == segs.len() && text::ends_with_char(key, '/')
        ||| seg.len() > 0 && !text::is_blank(seg) && seg != seq!['.'] && seg != seq!['.', '.']
    }) by {
        lemma_no_fault(segs, 0, i);
        if segs[i].len() == 0 {
            assert(segs.last().len() == 0);
            text::lemma_segments_nonempty(key.drop_last());
        }
    }
}

/// Cutting a valid key after one of its slashes leaves a valid folder key.
pub proof fn law_parents_are_valid(key: Seq<char>, n: int)
    requires
        valid_key(key),
        0 < n <= key.len(),
        key[n - 1] == '/',
    ensures
        valid_key(key.take(n)),
{
    let p = key.take(n);
    let segs = text::segments(p);
    let all = text::segments(key);
    text::lemma_segments_prefix(key, n);
    text::lemma_segments_nonempty(p.drop_last());
    assert(p.last() == '/');
    assert(segs.last().len() == 0);
    assert forall|j: int| 0 <= j < segs.len() implies segment_fault(#[trigger] segs[j]) is None || (
    segs[j].len() == 0 && j + 1 == segs.len()) by {
        if j < segs.len() - 1 {
            assert(all[j] == segs[j]);
            lemma_no_fault(all, 0, j);
        }
    }
    lemma_faultless(segs, 0);
    assert(p[0] == key[0]);
    if p.contains('\\') {
        let i = choose|i: int| 0 <= i < p.len() && p[i] == '\\';
        assert(key[i] == '\\');
    }
    if has_control(p) {
        let i = choose|i: int| 0 <= i < p.len() && text::is_control(#[trigger] p[i]);
        assert(text::is_control(key[i]));
    }
}

/// A valid key that marks no folder becomes a valid folder key with a `/`.
pub proof fn law_folder_keys_are_valid(key: Seq<char>)
    requires
        valid_key(key),
        !text::ends_with_char(key, '/'),
    ensures
        valid_key(key.push('/')),
{
    let k = key.push('/');
    let segs = text::segments(k);
    let all = text::segments(key);
    assert(k.drop_last() =~= key);
    assert(segs == all.push(Seq::<char>::empty()));
    law_valid_key_stays_below(key);
    assert forall|j: int| 0 <= j < segs.len() implies segment_fault(#[trigger] segs[j]) is None || (
    segs[j].len() == 0 && j + 1 == segs.len()) by {
        if j < all.len() {
            assert(all[j] == segs[j]);
        }
    }
    lemma_faultless(segs, 0);
    if k.contains('\\') {
        let i = choose|i: int| 0 <= i < k.len() && k[i] == '\\';
        assert(key[i] == '\\');
    }
    if has_control(k) {
        let i = choose|i: int| 0 <= i < k.len() && text::is_control(#[trigger] k[i]);
        assert(text::is_control('/') ==> false);
        assert(text::is_control(key[i]));
    }
}

/// Whether a segment may stand in a key: it holds something other than white
/// space, and is neither `.` nor `..`.
pub open spec fn good_segment(seg: Seq<char>) -> bool {
    &&& exists|i: int| 0 <= i < seg.len() && !text::is_whitespace(#[trigger] seg[i])
    &&& !(seg.len() == 1 && seg[0] == '.')
    &&& !(seg.len() == 2 && seg[0] == '.' && seg[1] == '.')
}

/// A key is valid if and only if it is not empty, does not start with `/`, holds
/// no backslash and no control character, and all its segments are good, but for
/// the empty one behind the `/` of a folder.
pub proof fn law_valid_keys(key: Seq<char>)
    ensures
        valid_key(key) <==> {
            &&& key.len() > 0
            &&& key[0] != '/'
            &&& forall|i: int|
                0 <= i < key.len() ==> #[trigger] key[i] != '\\' && !text::is_control(key[i])
            &&& forall|i: int|
                0 <= i < text::segments(key).len() ==> good_segment(
                    #[trigger] text::segments(key)[i],
                ) || (i > 0 && i == text::segments(key).len() - 1 && text::segments(key)[i].len()
                    == 0)
        },
{
    let segs = text::segments(key);
    text::lemma_segments_nonempty(key);
    if key.len() > 0 && key[0] != '/' {
        lemma_first_segment(key);
    }
    assert forall|seg: Seq<char>| #[trigger] good_segment(seg) == (segment_fault(seg) is None) by {
        lemma_good_segment(seg);
    }
    if valid_key(key) {
        law_valid_key_stays_below(key);
        assert forall|i: int| 0 <= i < key.len() implies #[trigger] key[i] != '\\'
            && !text::is_control(key[i]) by {
            if key[i] == '\\' {
                assert(key.contains('\\'));
            }
        }
        assert forall|i: int| 0 <= i < segs.len() implies good_segment(#[trigger] segs[i]) || (i > 0
            && i == segs.len() - 1 && segs[i].len() == 0) by {
            lemma_no_fault(segs, 0, i);
        }
    }
    if key.len() > 0 && key[0] != '/' && (forall|i: int|
        0 <= i < key.len() ==> #[trigger] key[i] != '\\' && !text::is_control(key[i])) && (forall|
        i: int,
    |
        0 <= i < segs.len() ==> good_segment(#[trigger] segs[i]) || (i > 0 && i == segs.len() - 1
            && segs[i].len() == 0)) {
        lemma_faultless(segs, 0);
    }
}

proof fn lemma_first_segment(key: Seq<char>)
    requires
        key.len() > 0,
        key[0] != '/',
    ensures
        text::segments(key)[0].len() > 0,
    decreases key.len(),
{
    let d = key.drop_last();
    text::lemma_segments_nonempty(d);
    if d.len() > 0 {
        assert(d[0] == key[0]);
        lemma_first_segment(d);
    }
}

proof fn lemma_good_segment(seg: Seq<char>)
    ensures
        good_segment(seg) == (segment_fault(seg) is None),
{
    if seg.len() == 1 && seg[0] == '.' {
        assert(seg =~= seq!['.']);
    }
    if seg.len() == 2 && seg[0] == '.' && seg[1] == '.' {
        assert(seg =~= seq!['.', '.']);
    }
    if seg.len() > 0 {
        if text::is_blank(seg) {
            if exists|i: int| 0 <= i < seg.len() && !text::is_whitespace(#[trigger] seg[i]) {
                let i = choose|i: int| 0 <= i < seg.len() && !text::is_whitespace(
                    #[trigger] seg[i],
                );
                assert(text::is_whitespace(seg[i]));
            }
        } else {
            let i = choose|i: int| 0 <= i < seg.len() && !text::is_whitespace(#[trigger] seg[i]);
            assert(!text::is_whitespace(seg[i]));
        }
    }
}

} // verus!
