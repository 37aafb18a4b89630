//! JSON texts: what the library writes, and how it reads objects apart.
//!
//! Reading is done one level at a time with `serde_json`: an object text is
//! taken apart into its members, each still a text, an array text into its
//! items. A closed object ([`object_fields`]) has no member outside a given
//! list of names, and none twice.

use vstd::prelude::*;
use crate::text;
use crate::text::{cat3, chars_of, same_text};

verus! {

/// One character inside a JSON string.
pub open spec fn escape(c: char) -> Seq<char> {
    if c == '"' {
        seq!['\\', '"']
    } else if c == '\\' {
        seq!['\\', '\\']
    } else if c == '\u{8}' {
        seq!['\\', 'b']
    } else if c == '\u{9}' {
        seq!['\\', 't']
    } else if c == '\u{a}' {
        seq!['\\', 'n']
    } else if c == '\u{c}' {
        seq!['\\', 'f']
    } else if c == '\u{d}' {
        seq!['\\', 'r']
    } else if c <= '\u{1f}' {
        seq!['\\', 'u', '0', '0', text::digit(c as nat / 16), text::digit(c as nat % 16)]
    } else {
        seq![c]
    }
}

/// The characters inside a JSON string.
pub open spec fn escapes(s: Seq<char>) -> Seq<char>
    decreases s.len(),
{
    if s.len() == 0 {
        Seq::<char>::empty()
    } else {
        escapes(s.drop_last()) + escape(s.last())
    }
}

/// The JSON text of a string.
pub open spec fn quote(s: Seq<char>) -> Seq<char> {
    seq!['"'] + escapes(s) + seq!['"']
}

/// The JSON text of one member of an object.
pub open spec fn member_text(name: Seq<char>, raw: Seq<char>) -> Seq<char> {
    quote(name) + seq![':'] + raw
}

/// The comma-separated members of an object.
pub open spec fn members_text(m: Seq<(Seq<char>, Seq<char>)>) -> Seq<char>
    decreases m.len(),
{
    if m.len() == 0 {
        Seq::<char>::empty()
    } else if m.len() == 1 {
        member_text(m[0].0, m[0].1)
    } else {
        members_text(m.drop_last()) + seq![','] + member_text(m.last().0, m.last().1)
    }
}

/// The compact JSON text of an object with the given members.
pub open spec fn object_text(m: Seq<(Seq<char>, Seq<char>)>) -> Seq<char> {
    seq!['{'] + members_text(m) + seq!['}']
}

/// The comma-separated items of an array.
pub open spec fn items_text(items: Seq<Seq<char>>) -> Seq<char>
    decreases items.len(),
{
    if items.len() == 0 {
        Seq::<char>::empty()
    } else if items.len() == 1 {
        items[0]
    } else {
        items_text(items.drop_last()) + seq![','] + items.last()
    }
}

/// The compact JSON text of an array with the given items.
pub open spec fn array_text(items: Seq<Seq<char>>) -> Seq<char> {
    seq!['['] + items_text(items) + seq![']']
}

/// The JSON text `null`.
pub open spec fn null_text() -> Seq<char> {
    seq!['n', 'u', 'l', 'l']
}

/// Whether no two members have the same name.
pub open spec fn distinct_names(m: Seq<(Seq<char>, Seq<char>)>) -> bool {
    forall|i: int, j: int| 0 <= i < j < m.len() ==> (#[trigger] m[i]).0 != (#[trigger] m[j]).0
}

/// Whether a text is the compact text of a JSON value made of `null`, unsigned
/// numbers, strings, arrays and objects, nested at most `depth` deep.
pub open spec fn value_text(raw: Seq<char>, depth: nat) -> bool
    decreases depth,
{
    ||| raw == null_text()
    ||| exists|n: u64| raw == #[trigger] text::dec(n as nat)
    ||| exists|s: Seq<char>| raw == #[trigger] quote(s)
    ||| depth > 0 && exists|items: Seq<Seq<char>>|
        raw == #[trigger] array_text(items) && forall|i: int|
            0 <= i < items.len() ==> value_text(#[trigger] items[i], (depth - 1) as nat)
    ||| depth > 0 && exists|m: Seq<(Seq<char>, Seq<char>)>|
        raw == #[trigger] object_text(m) && distinct_names(m) && forall|i: int|
            0 <= i < m.len() ==> value_text((#[trigger] m[i]).1, (depth - 1) as nat)
}

/// The views of a sequence of string pairs.
pub open spec fn pairs(v: Seq<(String, String)>) -> Seq<(Seq<char>, Seq<char>)> {
    Seq::new(v.len(), |i: int| (v[i].0@, v[i].1@))
}

/// `serde_json::to_string` of a string slice: the text in double quotes, with
/// quotes, backslashes and control characters escaped.
#[verifier::external_body]
pub(crate) fn quote_string(s: &str) -> (r: String)
    ensures
        r@ == quote(s@),
{
    serde_json::to_string(s).expect("a string is always serializable")
}

/// What reading a text as a JSON object of raw members gives: the members by
/// ascending name, or the message of the error.
pub uninterp spec fn json_object(s: Seq<char>) -> Result<
    Seq<(Seq<char>, Seq<char>)>,
    Seq<char>,
>;

/// `serde_json::from_str` into a map from names to `RawValue`s: the members of
/// an object by ascending name, each with the text of its value as it stands.
/// Of members with the same name the last one counts. A compact text is taken
/// apart into the members that it was made of.
#[verifier::external_body]
pub(crate) fn read_object(s: &str) -> (r: Result<Vec<(String, String)>, String>)
    ensures
        match r {
            Ok(m) => json_object(s@) == Ok::<_, Seq<char>>(pairs(m@)) && distinct_names(pairs(m@)),
            Err(e) => json_object(s@) == Err::<Seq<(Seq<char>, Seq<char>)>, _>(e@),
        },
        forall|m: Seq<(Seq<char>, Seq<char>)>|
            s@ == #[trigger] object_text(m) && distinct_names(m) && (forall|i: int|
                0 <= i < m.len() ==> value_text((#[trigger] m[i]).1, 8)) ==> r is Ok && pairs(
                r->Ok_0@,
            ).to_multiset() == m.to_multiset(),
{
    let parsed: std::collections::BTreeMap<String, Box<serde_json::value::RawValue>> =
        serde_json::from_str(s).map_err(|e| e.to_string())?;
    Ok(parsed.into_iter().map(|(k, v)| (k, v.get().to_owned())).collect())
}

/// What reading a text as a JSON array of raw items gives: the items, or the
/// message of the error.
pub uninterp spec fn json_array(s: Seq<char>) -> Result<Seq<Seq<char>>, Seq<char>>;

/// `serde_json::from_str` into a vector of `RawValue`s: the items of an array,
/// each with its text as it stands. A compact text is taken apart into the
/// items that it was made of.
#[verifier::external_body]
pub(crate) fn read_array(s: &str) -> (r: Result<Vec<String>, String>)
    ensures
        match r {
            Ok(v) => json_array(s@) == Ok::<_, Seq<char>>(text::texts(v@)),
            Err(e) => json_array(s@) == Err::<Seq<Seq<char>>, _>(e@),
        },
        forall|items: Seq<Seq<char>>|
            s@ == #[trigger] array_text(items) && (forall|i: int|
                0 <= i < items.len() ==> value_text(#[trigger] items[i], 8)) ==> r is Ok
                && text::texts(r->Ok_0@) == items,
{
    let parsed: Vec<Box<serde_json::value::RawValue>> = serde_json::from_str(s).map_err(
        |e| e.to_string(),
    )?;
    Ok(parsed.into_iter().map(|v| v.get().to_owned()).collect())
}

/// What reading a text as a JSON unsigned number gives.
pub uninterp spec fn json_u64(s: Seq<char>) -> Result<u64, Seq<char>>;

/// `serde_json::from_str` into a `u64`. A decimal text gives its number.
#[verifier::external_body]
pub(crate) fn read_u64(s: &str) -> (r: Result<u64, String>)
    ensures
        match r {
            Ok(n) => json_u64(s@) == Ok::<u64, Seq<char>>(n),
            Err(e) => json_u64(s@) == Err::<u64, _>(e@),
        },
        forall|n: u64| s@ == #[trigger] text::dec(n as nat) ==> r is Ok && r->Ok_0 == n,
{
    serde_json::from_str(s).map_err(|e| e.to_string())
}

/// What reading a text as a JSON string gives.
pub uninterp spec fn json_string(s: Seq<char>) -> Result<Seq<char>, Seq<char>>;

/// `serde_json::from_str` into a `String`. A quoted text gives what was
/// quoted.
#[verifier::external_body]
pub(crate) fn read_string(s: &str) -> (r: Result<String, String>)
    ensures
        match r {
            Ok(t) => json_string(s@) == Ok::<_, Seq<char>>(t@),
            Err(e) => json_string(s@) == Err::<Seq<char>, _>(e@),
        },
        forall|t: Seq<char>| s@ == #[trigger] quote(t) ==> r is Ok && r->Ok_0@ == t,
{
    serde_json::from_str(s).map_err(|e| e.to_string())
}

/// Where a position in a JSON text stands: outside strings (0), inside a
/// string (1), or behind a backslash inside a string (2).
pub open spec fn place(s: Seq<char>) -> int
    decreases s.len(),
{
    if s.len() == 0 {
        0
    } else {
        let p = place(s.drop_last());
        let c = s.last();
        if p == 2 {
            1
        } else if p == 1 {
            if c == '"' {
                0
            } else if c == '\\' {
                2
            } else {
                1
            }
        } else if c == '"' {
            1
        } else {
            0
        }
    }
}

/// The number of colons outside strings. In the text of an object, each member
/// has one of its own, and those inside its value.
pub open spec fn colons(s: Seq<char>) -> nat
    decreases s.len(),
{
    if s.len() == 0 {
        0
    } else {
        colons(s.drop_last()) + if place(s.drop_last()) == 0 && s.last() == ':' {
            1nat
        } else {
            0nat
        }
    }
}

/// The colons that the given members account for.
pub open spec fn member_colons(m: Seq<(Seq<char>, Seq<char>)>) -> nat
    decreases m.len(),
{
    if m.len() == 0 {
        0
    } else {
        member_colons(m.drop_last()) + 1 + colons(m.last().1)
    }
}

/// The number of colons outside strings.
fn count_colons(s: &str) -> (r: usize)
    ensures
        r == colons(s@),
{
    let c = chars_of(s);
    let mut inside = false;
    let mut escaped = false;
    let mut n: usize = 0;
    let mut i: usize = 0;
    assert(c@.take(0) =~= Seq::<char>::empty());
    while i < c.len()
        invariant
            i <= c@.len(),
            n <= i,
            n == colons(c@.take(i as int)),
            place(c@.take(i as int)) == if escaped {
                2int
            } else if inside {
                1int
            } else {
                0int
            },
        decreases c@.len() - i,
    {
        let ghost part = c@.take(i + 1);
        assert(part.drop_last() =~= c@.take(i as int));
        assert(part.last() == c@[i as int]);
        let ch = c[i];
        if escaped {
            escaped = false;
            inside = true;
        } else if inside {
            if ch == '"' {
                inside = false;
            } else if ch == '\\' {
                escaped = true;
            }
        } else if ch == '"' {
            inside = true;
        } else if ch == ':' {
            n = n + 1;
        }
        i = i + 1;
    }
    assert(c@.take(c@.len() as int) =~= c@);
    n
}

proof fn lemma_member_colons_grow(m: Seq<(Seq<char>, Seq<char>)>, i: int)
    requires
        0 <= i <= m.len(),
    ensures
        member_colons(m.take(i)) <= member_colons(m),
    decreases m.len() - i,
{
    if i < m.len() {
        assert(m.take(i + 1).drop_last() =~= m.take(i));
        lemma_member_colons_grow(m, i + 1);
    } else {
        assert(m.take(i) =~= m);
    }
}

/// Whether the members account for all the colons of the object's text, so
/// that none was dropped because its name occurs twice.
fn accounts_for(s: &str, m: &Vec<(String, String)>) -> (r: bool)
    ensures
        r == (colons(s@) == member_colons(pairs(m@))),
{
    let ghost all = pairs(m@);
    let mut left: usize = count_colons(s);
    let mut i: usize = 0;
    assert(all.take(0) =~= Seq::<(Seq<char>, Seq<char>)>::empty());
    while i < m.len()
        invariant
            i <= m@.len(),
            all == pairs(m@),
            left <= colons(s@),
            colons(s@) - left == member_colons(all.take(i as int)),
        decreases m@.len() - i,
    {
        assert(all.take(i + 1).drop_last() =~= all.take(i as int));
        assert(all.take(i + 1).last() == all[i as int]);
        let c: usize = count_colons(m[i].1.as_str());
        if left == 0 || left - 1 < c {
            proof {
                lemma_member_colons_grow(all, i + 1);
            }
            return false;
        }
        left = left - 1 - c;
        i = i + 1;
    }
    assert(all.take(i as int) =~= all);
    left == 0
}

/// The value of the member with the given name.
pub open spec fn lookup(m: Seq<(Seq<char>, Seq<char>)>, name: Seq<char>) -> Option<Seq<char>>
    decreases m.len(),
{
    if m.len() == 0 {
        None
    } else if m.last().0 == name {
        Some(m.last().1)
    } else {
        lookup(m.drop_last(), name)
    }
}

/// The value of the member with the given name.
fn find_member(m: &Vec<(String, String)>, name: &str) -> (r: Option<String>)
    ensures
        text::opt_text(r) == lookup(pairs(m@), name@),
{
    let ghost all = pairs(m@);
    let mut i: usize = m.len();
    assert(all.take(i as int) =~= all);
    while i > 0
        invariant
            i <= m@.len(),
            all == pairs(m@),
            lookup(all, name@) == lookup(all.take(i as int), name@),
        decreases i,
    {
        i = i - 1;
        assert(all.take(i + 1).drop_last() =~= all.take(i as int));
        assert(all.take(i + 1).last() == all[i as int]);
        if same_text(m[i].0.as_str(), name) {
            return Some(m[i].1.clone());
        }
    }
    None
}

/// The views of a list of names.
pub open spec fn name_list(names: Seq<&'static str>) -> Seq<Seq<char>> {
    Seq::new(names.len(), |i: int| names[i]@)
}

/// The first member whose name is not in the list.
pub open spec fn stranger(m: Seq<(Seq<char>, Seq<char>)>, names: Seq<Seq<char>>) -> Option<
    Seq<char>,
>
    decreases m.len(),
{
    if m.len() == 0 {
        None
    } else if stranger(m.drop_last(), names) is Some {
        stranger(m.drop_last(), names)
    } else if names.contains(m.last().0) {
        None
    } else {
        Some(m.last().0)
    }
}

/// Whether the name is in the list.
fn is_listed(names: &[&'static str], name: &str) -> (r: bool)
    ensures
        r == name_list(names@).contains(name@),
{
    let mut i: usize = 0;
    while i < names.len()
        invariant
            i <= names@.len(),
            forall|j: int| 0 <= j < i ==> #[trigger] name_list(names@)[j] != name@,
        decreases names@.len() - i,
    {
        assert(name_list(names@)[i as int] == names@[i as int]@);
        if same_text(names[i], name) {
            return true;
        }
        i = i + 1;
    }
    false
}

/// The first member whose name is not in the list.
fn find_stranger(m: &Vec<(String, String)>, names: &[&'static str]) -> (r: Option<String>)
    ensures
        text::opt_text(r) == stranger(pairs(m@), name_list(names@)),
{
    let ghost all = pairs(m@);
    let ghost listed = name_list(names@);
    let mut i: usize = 0;
    assert(all.take(0) =~= Seq::<(Seq<char>, Seq<char>)>::empty());
    while i < m.len()
        invariant
            i <= m@.len(),
            all == pairs(m@),
            listed == name_list(names@),
            stranger(all.take(i as int), listed) is None,
        decreases m@.len() - i,
    {
        assert(all.take(i + 1).drop_last() =~= all.take(i as int));
        assert(all.take(i + 1).last() == all[i as int]);
        if !is_listed(names, m[i].0.as_str()) {
            proof {
                lemma_stranger_stays(all, listed, i + 1);
            }
            return Some(m[i].0.clone());
        }
        i = i + 1;
    }
    assert(all.take(i as int) =~= all);
    None
}

proof fn lemma_stranger_stays(m: Seq<(Seq<char>, Seq<char>)>, names: Seq<Seq<char>>, i: int)
    requires
        0 <= i <= m.len(),
        stranger(m.take(i), names) is Some,
    ensures
        stranger(m, names) == stranger(m.take(i), names),
    decreases m.len() - i,
{
    if i < m.len() {
        assert(m.take(i + 1).drop_last() =~= m.take(i));
        lemma_stranger_stays(m, names, i + 1);
    } else {
        assert(m.take(i) =~= m);
    }
}

proof fn lemma_join(a: Seq<char>, b: Seq<char>)
    requires
        place(a) == 0,
    ensures
        place(a + b) == place(b),
        colons(a + b) == colons(a) + colons(b),
    decreases b.len(),
{
    if b.len() == 0 {
        assert(a + b =~= a);
    } else {
        assert((a + b).drop_last() =~= a + b.drop_last());
        lemma_join(a, b.drop_last());
    }
}

proof fn lemma_plain_char(c: char)
    requires
        c != '"',
    ensures
        place(seq![c]) == 0,
        colons(seq![c]) == if c == ':' {
            1nat
        } else {
            0nat
        },
{
    let none = Seq::<char>::empty();
    assert(place(none) == 0 && colons(none) == 0);
    lemma_place_step(none, c);
    assert(seq![c] =~= none.push(c));
}

proof fn lemma_place_step(s: Seq<char>, c: char)
    ensures
        place(s.push(c)) == if place(s) == 2 {
            1int
        } else if place(s) == 1 {
            if c == '"' {
                0int
            } else if c == '\\' {
                2int
            } else {
                1int
            }
        } else if c == '"' {
            1int
        } else {
            0int
        },
        colons(s.push(c)) == colons(s) + if place(s) == 0 && c == ':' {
            1nat
        } else {
            0nat
        },
{
    assert(s.push(c).drop_last() =~= s);
}

proof fn lemma_escape_inside(s: Seq<char>, c: char)
    requires
        place(s) == 1,
    ensures
        place(s + escape(c)) == 1,
        colons(s + escape(c)) == colons(s),
{
    let e = escape(c);
    if e.len() == 1 {
        assert(s + e =~= s.push(e[0]));
        lemma_place_step(s, e[0]);
    } else if e.len() == 2 {
        assert(s + e =~= s.push(e[0]).push(e[1]));
        lemma_place_step(s, e[0]);
        lemma_place_step(s.push(e[0]), e[1]);
    } else {
        let s2 = s.push(e[0]).push(e[1]);
        lemma_place_step(s, e[0]);
        lemma_place_step(s.push(e[0]), e[1]);
        assert(place(s2) == 1);
        let s3 = s2.push(e[2]);
        lemma_place_step(s2, e[2]);
        let s4 = s3.push(e[3]);
        lemma_place_step(s3, e[3]);
        let s5 = s4.push(e[4]);
        lemma_place_step(s4, e[4]);
        lemma_place_step(s5, e[5]);
        assert(s + e =~= s5.push(e[5]));
    }
}

proof fn lemma_escapes_inside(s: Seq<char>)
    ensures
        place(seq!['"'] + escapes(s)) == 1,
        colons(seq!['"'] + escapes(s)) == 0,
    decreases s.len(),
{
    if s.len() == 0 {
        assert(seq!['"'] + escapes(s) =~= Seq::<char>::empty().push('"'));
        lemma_place_step(Seq::<char>::empty(), '"');
    } else {
        lemma_escapes_inside(s.drop_last());
        let head = seq!['"'] + escapes(s.drop_last());
        lemma_escape_inside(head, s.last());
        assert(seq!['"'] + escapes(s) =~= head + escape(s.last()));
    }
}

/// A quoted text ends outside strings and has no colon outside them.
proof fn lemma_quote_outside(s: Seq<char>)
    ensures
        place(quote(s)) == 0,
        colons(quote(s)) == 0,
{
    lemma_escapes_inside(s);
    let head = seq!['"'] + escapes(s);
    lemma_place_step(head, '"');
    assert(quote(s) =~= head.push('"'));
}

proof fn lemma_dec_outside(n: nat)
    ensures
        place(text::dec(n)) == 0,
        colons(text::dec(n)) == 0,
    decreases n,
{
    if n < 10 {
        lemma_plain_char(text::digit(n));
    } else {
        lemma_dec_outside(n / 10);
        lemma_place_step(text::dec(n / 10), text::digit(n % 10));
    }
}

proof fn lemma_items_outside(items: Seq<Seq<char>>)
    requires
        forall|i: int| 0 <= i < items.len() ==> place(#[trigger] items[i]) == 0,
    ensures
        place(items_text(items)) == 0,
    decreases items.len(),
{
    if items.len() > 1 {
        let d = items.drop_last();
        assert forall|i: int| 0 <= i < d.len() implies place(#[trigger] d[i]) == 0 by {
            assert(d[i] == items[i]);
        }
        lemma_items_outside(d);
        lemma_plain_char(',');
        lemma_join(items_text(d), seq![',']);
        lemma_join(items_text(d) + seq![','], items.last());
        assert(items.last() == items[items.len() - 1]);
    }
}

proof fn lemma_member_outside(name: Seq<char>, raw: Seq<char>)
    requires
        place(raw) == 0,
    ensures
        place(member_text(name, raw)) == 0,
        colons(member_text(name, raw)) == 1 + colons(raw),
{
    lemma_quote_outside(name);
    lemma_plain_char(':');
    lemma_join(quote(name), seq![':']);
    lemma_join(quote(name) + seq![':'], raw);
}

proof fn lemma_members_outside(m: Seq<(Seq<char>, Seq<char>)>)
    requires
        forall|i: int| 0 <= i < m.len() ==> place((#[trigger] m[i]).1) == 0,
    ensures
        place(members_text(m)) == 0,
        colons(members_text(m)) == member_colons(m),
    decreases m.len(),
{
    if m.len() == 1 {
        lemma_member_outside(m[0].0, m[0].1);
        assert(member_colons(m.drop_last()) == 0);
    } else if m.len() > 1 {
        let d = m.drop_last();
        assert forall|i: int| 0 <= i < d.len() implies place((#[trigger] d[i]).1) == 0 by {
            assert(d[i] == m[i]);
        }
        lemma_members_outside(d);
        assert(m.last() == m[m.len() - 1]);
        lemma_member_outside(m.last().0, m.last().1);
        lemma_plain_char(',');
        lemma_join(members_text(d), seq![',']);
        lemma_join(members_text(d) + seq![','], member_text(m.last().0, m.last().1));
    }
}

proof fn lemma_object_outside(m: Seq<(Seq<char>, Seq<char>)>)
    requires
        forall|i: int| 0 <= i < m.len() ==> place((#[trigger] m[i]).1) == 0,
    ensures
        place(object_text(m)) == 0,
        colons(object_text(m)) == member_colons(m),
{
    lemma_members_outside(m);
    lemma_plain_char('{');
    lemma_plain_char('}');
    lemma_join(seq!['{'], members_text(m));
    lemma_join(seq!['{'] + members_text(m), seq!['}']);
}

/// A value's text ends outside strings.
proof fn lemma_value_outside(raw: Seq<char>, depth: nat)
    requires
        value_text(raw, depth),
    ensures
        place(raw) == 0,
    decreases depth,
{
    if raw == null_text() {
        assert(raw =~= seq!['n'] + seq!['u'] + seq!['l'] + seq!['l']);
        lemma_plain_char('n');
        lemma_plain_char('u');
        lemma_plain_char('l');
        lemma_join(seq!['n'], seq!['u']);
        lemma_join(seq!['n'] + seq!['u'], seq!['l']);
        lemma_join(seq!['n'] + seq!['u'] + seq!['l'], seq!['l']);
    } else if exists|n: u64| raw == #[trigger] text::dec(n as nat) {
        let n = choose|n: u64| raw == #[trigger] text::dec(n as nat);
        lemma_dec_outside(n as nat);
    } else if exists|s: Seq<char>| raw == #[trigger] quote(s) {
        let s = choose|s: Seq<char>| raw == #[trigger] quote(s);
        lemma_quote_outside(s);
    } else if exists|items: Seq<Seq<char>>|
        raw == #[trigger] array_text(items) && forall|i: int|
            0 <= i < items.len() ==> value_text(#[trigger] items[i], (depth - 1) as nat) {
        let items = choose|items: Seq<Seq<char>>|
            raw == #[trigger] array_text(items) && forall|i: int|
                0 <= i < items.len() ==> value_text(#[trigger] items[i], (depth - 1) as nat);
        assert forall|i: int| 0 <= i < items.len() implies place(#[trigger] items[i]) == 0 by {
            lemma_value_outside(items[i], (depth - 1) as nat);
        }
        lemma_items_outside(items);
        lemma_plain_char('[');
        lemma_plain_char(']');
        lemma_join(seq!['['], items_text(items));
        lemma_join(seq!['['] + items_text(items), seq![']']);
    } else {
        let m = choose|m: Seq<(Seq<char>, Seq<char>)>|
            raw == #[trigger] object_text(m) && distinct_names(m) && forall|i: int|
                0 <= i < m.len() ==> value_text((#[trigger] m[i]).1, (depth - 1) as nat);
        assert forall|i: int| 0 <= i < m.len() implies place((#[trigger] m[i]).1) == 0 by {
            lemma_value_outside(m[i].1, (depth - 1) as nat);
        }
        lemma_object_outside(m);
    }
}

proof fn lemma_remove_colons(m: Seq<(Seq<char>, Seq<char>)>, j: int)
    requires
        0 <= j < m.len(),
    ensures
        member_colons(m) == member_colons(m.remove(j)) + 1 + colons(m[j].1),
    decreases m.len(),
{
    if j < m.len() - 1 {
        lemma_remove_colons(m.drop_last(), j);
        assert(m.remove(j).drop_last() =~= m.drop_last().remove(j));
        assert(m.remove(j).last() == m.last());
    } else {
        assert(m.remove(j) =~= m.drop_last());
    }
}

/// Sequences with the same members account for the same colons.
proof fn lemma_same_members_colons(
    a: Seq<(Seq<char>, Seq<char>)>,
    b: Seq<(Seq<char>, Seq<char>)>,
)
    requires
        a.to_multiset() == b.to_multiset(),
    ensures
        a.len() == b.len(),
        member_colons(a) == member_colons(b),
    decreases a.len(),
{
    broadcast use vstd::seq_lib::group_to_multiset_ensures;

    assert(a.len() == a.to_multiset().len());
    assert(b.len() == b.to_multiset().len());
    if a.len() > 0 {
        let x = a.last();
        assert(a.contains(x));
        assert(a.to_multiset().count(x) > 0);
        assert(b.contains(x));
        let j = choose|j: int| 0 <= j < b.len() && b[j] == x;
        assert(a =~= a.drop_last().push(x));
        assert(a.drop_last().to_multiset() =~= a.to_multiset().remove(x));
        assert(b.remove(j).to_multiset() =~= b.to_multiset().remove(x));
        lemma_same_members_colons(a.drop_last(), b.remove(j));
        lemma_remove_colons(b, j);
    }
}

/// With distinct names, looking up a member's name gives its value.
proof fn lemma_lookup_member(m: Seq<(Seq<char>, Seq<char>)>, i: int)
    requires
        distinct_names(m),
        0 <= i < m.len(),
    ensures
        lookup(m, m[i].0) == Some(m[i].1),
    decreases m.len(),
{
    if i < m.len() - 1 {
        let d = m.drop_last();
        assert(m[i].0 != m[m.len() - 1].0);
        assert forall|a: int, b: int| 0 <= a < b < d.len() implies (#[trigger] d[a]).0 != (
        #[trigger] d[b]).0 by {
            assert(d[a] == m[a] && d[b] == m[b]);
        }
        lemma_lookup_member(d, i);
        assert(d[i] == m[i]);
    }
}

/// What a lookup gives is a member.
proof fn lemma_lookup_found(m: Seq<(Seq<char>, Seq<char>)>, name: Seq<char>)
    ensures
        lookup(m, name) is Some ==> m.contains((name, lookup(m, name)->0)),
    decreases m.len(),
{
    if m.len() > 0 {
        if m.last().0 == name {
            assert(m[m.len() - 1] == (name, m.last().1));
        } else {
            let d = m.drop_last();
            lemma_lookup_found(d, name);
            if lookup(d, name) is Some {
                let j = choose|j: int|
                    0 <= j < d.len() && d[j] == (name, lookup(d, name)->0);
                assert(m[j] == d[j]);
            }
        }
    }
}

/// Sequences with the same members, no name twice, give the same lookups.
proof fn lemma_same_members_lookup(
    a: Seq<(Seq<char>, Seq<char>)>,
    b: Seq<(Seq<char>, Seq<char>)>,
    name: Seq<char>,
)
    requires
        a.to_multiset() == b.to_multiset(),
        distinct_names(a),
        distinct_names(b),
    ensures
        lookup(a, name) == lookup(b, name),
{
    broadcast use vstd::seq_lib::group_to_multiset_ensures;

    lemma_lookup_found(a, name);
    lemma_lookup_found(b, name);
    if lookup(a, name) is Some {
        let x = (name, lookup(a, name)->0);
        assert(a.to_multiset().count(x) > 0);
        assert(b.contains(x));
        let j = choose|j: int| 0 <= j < b.len() && b[j] == x;
        lemma_lookup_member(b, j);
    }
    if lookup(b, name) is Some {
        let x = (name, lookup(b, name)->0);
        assert(b.to_multiset().count(x) > 0);
        assert(a.contains(x));
        let j = choose|j: int| 0 <= j < a.len() && a[j] == x;
        lemma_lookup_member(a, j);
    }
}

proof fn lemma_no_stranger(m: Seq<(Seq<char>, Seq<char>)>, names: Seq<Seq<char>>)
    requires
        forall|i: int| 0 <= i < m.len() ==> names.contains((#[trigger] m[i]).0),
    ensures
        stranger(m, names) is None,
    decreases m.len(),
{
    if m.len() > 0 {
        let d = m.drop_last();
        assert forall|i: int| 0 <= i < d.len() implies names.contains((#[trigger] d[i]).0) by {
            assert(d[i] == m[i]);
        }
        lemma_no_stranger(d, names);
        assert(m.last() == m[m.len() - 1]);
    }
}

/// Whether a text is the compact text of an object with the given members, all
/// of them listed.
pub open spec fn writes(
    s: Seq<char>,
    m: Seq<(Seq<char>, Seq<char>)>,
    names: Seq<Seq<char>>,
) -> bool {
    &&& s == object_text(m)
    &&& distinct_names(m)
    &&& forall|i: int| 0 <= i < m.len() ==> value_text((#[trigger] m[i]).1, 8)
    &&& forall|i: int| 0 <= i < m.len() ==> names.contains((#[trigger] m[i]).0)
}

/// What the members of a written object are read as.
proof fn lemma_written_fields(
    s: Seq<char>,
    read: Seq<(Seq<char>, Seq<char>)>,
    m: Seq<(Seq<char>, Seq<char>)>,
    names: Seq<Seq<char>>,
)
    requires
        writes(s, m, names),
        read.to_multiset() == m.to_multiset(),
        distinct_names(read),
    ensures
        stranger(read, names) is None,
        colons(s) == member_colons(read),
        forall|name: Seq<char>| #[trigger] lookup(read, name) == lookup(m, name),
{
    broadcast use vstd::seq_lib::group_to_multiset_ensures;

    assert forall|i: int| 0 <= i < m.len() implies place((#[trigger] m[i]).1) == 0 by {
        lemma_value_outside(m[i].1, 8);
    }
    lemma_object_outside(m);
    lemma_same_members_colons(read, m);
    assert forall|i: int| 0 <= i < read.len() implies names.contains((#[trigger] read[i]).0) by {
        assert(read.contains(read[i]));
        assert(read.to_multiset().count(read[i]) > 0);
        assert(m.contains(read[i]));
        let j = choose|j: int| 0 <= j < m.len() && m[j] == read[i];
        assert(names.contains(m[j].0));
    }
    lemma_no_stranger(read, names);
    assert forall|name: Seq<char>| #[trigger] lookup(read, name) == lookup(m, name) by {
        lemma_same_members_lookup(read, m, name);
    }
}

/// The members of a JSON object in the order of `names`, an absent one as
/// `None`. A member that is not listed is an error, and so is one that occurs
/// twice. An array stands for the object whose members, in the order of
/// `names`, are its items; it has at least `least` of them. An error names the
/// fault of the closed object without its line and column; a text that is
/// neither an object nor an array has the message of `serde_json`.
pub open spec fn fields(s: Seq<char>, names: Seq<Seq<char>>, least: nat) -> Result<
    Seq<Option<Seq<char>>>,
    Seq<char>,
> {
    match json_object(s) {
        Ok(m) => match stranger(m, names) {
            Some(name) => Err("unknown field `"@ + name + "`"@),
            None => if colons(s) != member_colons(m) {
                Err("duplicate field"@)
            } else {
                Ok(Seq::new(names.len(), |i: int| lookup(m, names[i])))
            },
        },
        Err(e) => match json_array(s) {
            Ok(items) => if items.len() < least {
                Err("invalid length"@)
            } else if items.len() > names.len() {
                Err("trailing characters"@)
            } else {
                Ok(
                    Seq::new(
                        names.len(),
                        |i: int|
                            if i < items.len() {
                                Some(items[i])
                            } else {
                                None
                            },
                    ),
                )
            },
            Err(_) => Err(e),
        },
    }
}

/// The views of a sequence of optional strings.
pub open spec fn opt_texts(v: Seq<Option<String>>) -> Seq<Option<Seq<char>>> {
    Seq::new(v.len(), |i: int| text::opt_text(v[i]))
}

/// Reads a closed JSON object; see [`fields`].
pub fn object_fields(s: &str, names: &[&'static str], least: usize) -> (r: Result<
    Vec<Option<String>>,
    String,
>)
    ensures
        match r {
            Ok(f) => fields(s@, name_list(names@), least as nat) == Ok::<_, Seq<char>>(
                opt_texts(f@),
            ),
            Err(e) => fields(s@, name_list(names@), least as nat) == Err::<
                Seq<Option<Seq<char>>>,
                _,
            >(e@),
        },
        forall|m: Seq<(Seq<char>, Seq<char>)>| #[trigger]
            writes(s@, m, name_list(names@)) ==> r is Ok && opt_texts(r->Ok_0@) == Seq::new(
                names@.len(),
                |i: int| lookup(m, names@[i]@),
            ),
{
    let ghost listed = name_list(names@);
    let outcome = read_object(s);
    proof {
        assert forall|m: Seq<(Seq<char>, Seq<char>)>| #[trigger]
            writes(s@, m, listed) implies outcome is Ok && stranger(
            pairs(outcome->Ok_0@),
            listed,
        ) is None && colons(s@) == member_colons(pairs(outcome->Ok_0@)) && (forall|
            name: Seq<char>,
        | #[trigger]
            lookup(pairs(outcome->Ok_0@), name) == lookup(m, name)) by {
            assert(s@ == object_text(m));
            lemma_written_fields(s@, pairs(outcome->Ok_0@), m, listed);
        }
    }
    match outcome {
        Ok(m) => {
            if let Some(name) = find_stranger(&m, names) {
                return Err(cat3("unknown field `", name.as_str(), "`"));
            }
            if !accounts_for(s, &m) {
                return Err("duplicate field".to_owned());
            }
            let ghost all = pairs(m@);
            let mut out: Vec<Option<String>> = Vec::new();
            let mut i: usize = 0;
            while i < names.len()
                invariant
                    i <= names@.len(),
                    listed == name_list(names@),
                    all == pairs(m@),
                    out@.len() == i,
                    forall|j: int|
                        0 <= j < i ==> text::opt_text(#[trigger] out@[j]) == lookup(all, listed[j]),
                decreases names@.len() - i,
            {
                out.push(find_member(&m, names[i]));
                i = i + 1;
            }
            proof {
                let f = opt_texts(out@);
                assert(f =~= Seq::new(listed.len(), |i: int| lookup(all, listed[i])));
                assert forall|w: Seq<(Seq<char>, Seq<char>)>| #[trigger]
                    writes(s@, w, listed) implies f == Seq::new(
                    names@.len(),
                    |i: int| lookup(w, names@[i]@),
                ) by {
                    assert(forall|name: Seq<char>| #[trigger]
                        lookup(all, name) == lookup(w, name));
                    assert(f =~= Seq::new(names@.len(), |i: int| lookup(w, names@[i]@)));
                }
            }
            Ok(out)
        },
        Err(e) => match read_array(s) {
            Ok(items) => {
                if items.len() < least {
                    return Err("invalid length".to_owned());
                }
                if items.len() > names.len() {
                    return Err("trailing characters".to_owned());
                }
                let ghost all = text::texts(items@);
                let mut out: Vec<Option<String>> = Vec::new();
                let mut i: usize = 0;
                while i < names.len()
                    invariant
                        i <= names@.len(),
                        all == text::texts(items@),
                        out@.len() == i,
                        forall|j: int|
                            0 <= j < i ==> text::opt_text(#[trigger] out@[j]) == if j < all.len() {
                                Some(all[j])
                            } else {
                                None
                            },
                    decreases names@.len() - i,
                {
                    if i < items.len() {
                        out.push(Some(items[i].clone()));
                    } else {
                        out.push(None);
                    }
                    i = i + 1;
                }
                assert(opt_texts(out@) =~= Seq::new(
                    listed.len(),
                    |i: int|
                        if i < all.len() {
                            Some(all[i])
                        } else {
                            None
                        },
                ));
                Ok(out)
            },
            Err(_) => Err(e),
        },
    }
}

/// The message for a required member that is absent.
pub open spec fn missing(name: Seq<char>) -> Seq<char> {
    "missing field `"@ + name + "`"@
}

/// A required number.
pub open spec fn required_u64(slot: Option<Seq<char>>, name: Seq<char>) -> Result<u64, Seq<char>> {
    match slot {
        None => Err(missing(name)),
        Some(raw) => json_u64(raw),
    }
}

/// A required string.
pub open spec fn required_string(slot: Option<Seq<char>>, name: Seq<char>) -> Result<
    Seq<char>,
    Seq<char>,
> {
    match slot {
        None => Err(missing(name)),
        Some(raw) => json_string(raw),
    }
}

/// A number that may be absent or `null`.
pub open spec fn optional_u64(slot: Option<Seq<char>>) -> Result<Option<u64>, Seq<char>> {
    match slot {
        None => Ok(None),
        Some(raw) => if raw == null_text() {
            Ok(None)
        } else {
            match json_u64(raw) {
                Ok(n) => Ok(Some(n)),
                Err(e) => Err(e),
            }
        },
    }
}

/// A string that may be absent or `null`.
pub open spec fn optional_string(slot: Option<Seq<char>>) -> Result<Option<Seq<char>>, Seq<char>> {
    match slot {
        None => Ok(None),
        Some(raw) => if raw == null_text() {
            Ok(None)
        } else {
            match json_string(raw) {
                Ok(t) => Ok(Some(t)),
                Err(e) => Err(e),
            }
        },
    }
}

/// Neither a number's text nor a string's text is `null`.
proof fn lemma_not_null(n: nat, t: Seq<char>)
    ensures
        text::dec(n) != null_text(),
        quote(t) != null_text(),
{
    assert(quote(t)[0] == '"');
    assert(null_text()[0] == 'n');
    assert(text::dec(n).last() == text::digit(n % 10)) by {
        if n < 10 {
            assert(n % 10 == n);
        }
    }
    assert(null_text().last() == 'l');
}

/// A required number.
pub fn take_u64(slot: &Option<String>, name: &str) -> (r: Result<u64, String>)
    ensures
        match r {
            Ok(n) => required_u64(text::opt_text(*slot), name@) == Ok::<u64, Seq<char>>(n),
            Err(e) => required_u64(text::opt_text(*slot), name@) == Err::<u64, _>(e@),
        },
        forall|n: u64|
            text::opt_text(*slot) == Some(#[trigger] text::dec(n as nat)) ==> r is Ok && r->Ok_0
                == n,
{
    match slot {
        None => Err(cat3("missing field `", name, "`")),
        Some(raw) => read_u64(raw.as_str()),
    }
}

/// A required string.
pub fn take_string(slot: &Option<String>, name: &str) -> (r: Result<String, String>)
    ensures
        match r {
            Ok(t) => required_string(text::opt_text(*slot), name@) == Ok::<_, Seq<char>>(t@),
            Err(e) => required_string(text::opt_text(*slot), name@) == Err::<Seq<char>, _>(e@),
        },
        forall|t: Seq<char>|
            text::opt_text(*slot) == Some(#[trigger] quote(t)) ==> r is Ok && r->Ok_0@ == t,
{
    match slot {
        None => Err(cat3("missing field `", name, "`")),
        Some(raw) => read_string(raw.as_str()),
    }
}

/// Whether a text is `null`.
fn is_null(raw: &str) -> (r: bool)
    ensures
        r == (raw@ == null_text()),
{
    proof {
        reveal_strlit("null");
        assert("null"@ =~= null_text());
    }
    same_text(raw, "null")
}

/// A number that may be absent or `null`.
pub fn take_opt_u64(slot: &Option<String>) -> (r: Result<Option<u64>, String>)
    ensures
        match r {
            Ok(n) => optional_u64(text::opt_text(*slot)) == Ok::<Option<u64>, Seq<char>>(n),
            Err(e) => optional_u64(text::opt_text(*slot)) == Err::<Option<u64>, _>(e@),
        },
        forall|n: u64|
            text::opt_text(*slot) == Some(#[trigger] text::dec(n as nat)) ==> r is Ok && r->Ok_0
                == Some(n),
        text::opt_text(*slot) == Some(null_text()) ==> r is Ok && r->Ok_0 is None,
{
    proof {
        assert forall|n: nat| #[trigger] text::dec(n) != null_text() by {
            lemma_not_null(n, Seq::empty());
        }
    }
    match slot {
        None => Ok(None),
        Some(raw) => {
            if is_null(raw.as_str()) {
                Ok(None)
            } else {
                match read_u64(raw.as_str()) {
                    Ok(n) => Ok(Some(n)),
                    Err(e) => Err(e),
                }
            }
        },
    }
}

/// A string that may be absent or `null`.
pub fn take_opt_string(slot: &Option<String>) -> (r: Result<Option<String>, String>)
    ensures
        match r {
            Ok(t) => optional_string(text::opt_text(*slot)) == Ok::<_, Seq<char>>(
                text::opt_text(t),
            ),
            Err(e) => optional_string(text::opt_text(*slot)) == Err::<Option<Seq<char>>, _>(e@),
        },
        forall|t: Seq<char>|
            text::opt_text(*slot) == Some(#[trigger] quote(t)) ==> r is Ok && text::opt_text(
                r->Ok_0,
            ) == Some(t),
        *slot is None ==> r is Ok && r->Ok_0 is None,
{
    proof {
        assert forall|t: Seq<char>| #[trigger] quote(t) != null_text() by {
            lemma_not_null(0, t);
        }
    }
    match slot {
        None => Ok(None),
        Some(raw) => {
            if is_null(raw.as_str()) {
                Ok(None)
            } else {
                match read_string(raw.as_str()) {
                    Ok(t) => Ok(Some(t)),
                    Err(e) => Err(e),
                }
            }
        },
    }
}

/// The compact text of an object with the given members.
pub fn write_object(m: &Vec<(&'static str, String)>) -> (r: String)
    ensures
        r@ == object_text(Seq::new(m@.len(), |i: int| (m@[i].0@, m@[i].1@))),
{
    let ghost all = Seq::new(m@.len(), |i: int| (m@[i].0@, m@[i].1@));
    let mut out = "{".to_owned();
    proof {
        reveal_strlit("{");
        assert("{"@ =~= seq!['{']);
        assert(out@ + members_text(all.take(0)) =~= out@);
    }
    let mut i: usize = 0;
    while i < m.len()
        invariant
            i <= m@.len(),
            all == Seq::new(m@.len(), |i: int| (m@[i].0@, m@[i].1@)),
            out@ == seq!['{'] + members_text(all.take(i as int)),
        decreases m@.len() - i,
    {
        let ghost start = out@;
        if i > 0 {
            out.push(',');
        }
        let q = quote_string(m[i].0);
        out.append(q.as_str());
        out.push(':');
        out.append(m[i].1.as_str());
        proof {
            let part = all.take(i + 1);
            assert(part.drop_last() =~= all.take(i as int));
            assert(part.last() == all[i as int]);
            let mt = member_text(all[i as int].0, all[i as int].1);
            if i == 0 {
                assert(part[0] == all[0]);
                assert(out@ =~= seq!['{'] + mt);
            } else {
                assert(out@ =~= start + (seq![','] + mt));
                assert(out@ =~= seq!['{'] + members_text(part));
            }
        }
        i = i + 1;
    }
    assert(all.take(i as int) =~= all);
    out.push('}');
    assert(out@ =~= object_text(all));
    out
}

/// The compact text of an array with the given items.
pub fn write_array(items: &Vec<String>) -> (r: String)
    ensures
        r@ == array_text(text::texts(items@)),
{
    let ghost all = text::texts(items@);
    let mut out = "[".to_owned();
    proof {
        reveal_strlit("[");
        assert("["@ =~= seq!['[']);
        assert(out@ + items_text(all.take(0)) =~= out@);
    }
    let mut i: usize = 0;
    while i < items.len()
        invariant
            i <= items@.len(),
            all == text::texts(items@),
            out@ == seq!['['] + items_text(all.take(i as int)),
        decreases items@.len() - i,
    {
        let ghost start = out@;
        if i > 0 {
            out.push(',');
        }
        out.append(items[i].as_str());
        proof {
            let part = all.take(i + 1);
            assert(part.drop_last() =~= all.take(i as int));
            assert(part.last() == all[i as int]);
            if i == 0 {
                assert(part[0] == all[0]);
                assert(out@ =~= seq!['['] + items_text(part));
            } else {
                assert(out@ =~= start + (seq![','] + all[i as int]));
                assert(out@ =~= seq!['['] + items_text(part));
            }
        }
        i = i + 1;
    }
    assert(all.take(i as int) =~= all);
    out.push(']');
    assert(out@ =~= array_text(all));
    out
}

/// Whether a text holds no control character below U+0020, such as a newline.
pub open spec fn on_one_line(s: Seq<char>) -> bool {
    forall|i: int| 0 <= i < s.len() ==> #[trigger] s[i] >= ' '
}

proof fn lemma_one_line_join(a: Seq<char>, b: Seq<char>)
    requires
        on_one_line(a),
        on_one_line(b),
    ensures
        on_one_line(a + b),
{
    assert forall|i: int| 0 <= i < (a + b).len() implies #[trigger] (a + b)[i] >= ' ' by {
        if i < a.len() {
            assert((a + b)[i] == a[i]);
        } else {
            assert((a + b)[i] == b[i - a.len()]);
        }
    }
}

proof fn lemma_escapes_one_line(s: Seq<char>)
    ensures
        on_one_line(escapes(s)),
    decreases s.len(),
{
    if s.len() > 0 {
        lemma_escapes_one_line(s.drop_last());
        assert(on_one_line(escape(s.last())));
        lemma_one_line_join(escapes(s.drop_last()), escape(s.last()));
    }
}

/// A quoted text stands on one line, whatever it holds.
pub proof fn lemma_quote_one_line(s: Seq<char>)
    ensures
        on_one_line(quote(s)),
{
    lemma_escapes_one_line(s);
    lemma_one_line_join(seq!['"'], escapes(s));
    lemma_one_line_join(seq!['"'] + escapes(s), seq!['"']);
}

/// An array of such items stands on one line.
pub proof fn lemma_array_one_line(items: Seq<Seq<char>>)
    requires
        forall|i: int| 0 <= i < items.len() ==> on_one_line(#[trigger] items[i]),
    ensures
        on_one_line(items_text(items)),
        on_one_line(array_text(items)),
    decreases items.len(),
{
    if items.len() > 1 {
        let d = items.drop_last();
        assert forall|i: int| 0 <= i < d.len() implies on_one_line(#[trigger] d[i]) by {
            assert(d[i] == items[i]);
        }
        lemma_array_one_line(d);
        lemma_one_line_join(items_text(d), seq![',']);
        assert(items.last() == items[items.len() - 1]);
        lemma_one_line_join(items_text(d) + seq![','], items.last());
    }
    lemma_one_line_join(seq!['['], items_text(items));
    lemma_one_line_join(seq!['['] + items_text(items), seq![']']);
}

/// An object of such values stands on one line.
pub proof fn lemma_object_one_line(m: Seq<(Seq<char>, Seq<char>)>)
    requires
        forall|i: int| 0 <= i < m.len() ==> on_one_line((#[trigger] m[i]).1),
    ensures
        on_one_line(members_text(m)),
        on_one_line(object_text(m)),
    decreases m.len(),
{
    if m.len() > 0 {
        let l = m[m.len() - 1];
        lemma_quote_one_line(l.0);
        lemma_one_line_join(quote(l.0), seq![':']);
        lemma_one_line_join(quote(l.0) + seq![':'], l.1);
        if m.len() > 1 {
            let d = m.drop_last();
            assert forall|i: int| 0 <= i < d.len() implies on_one_line((#[trigger] d[i]).1) by {
                assert(d[i] == m[i]);
            }
            lemma_object_one_line(d);
            lemma_one_line_join(members_text(d), seq![',']);
            lemma_one_line_join(members_text(d) + seq![','], member_text(l.0, l.1));
        }
    }
    lemma_one_line_join(seq!['{'], members_text(m));
    lemma_one_line_join(seq!['{'] + members_text(m), seq!['}']);
}

/// A closed object has no member outside the list of names.
pub proof fn law_closed_objects(s: Seq<char>, names: Seq<Seq<char>>, least: nat, i: int)
    requires
        json_object(s) is Ok,
        0 <= i < json_object(s)->Ok_0.len(),
        !names.contains(json_object(s)->Ok_0[i].0),
    ensures
        fields(s, names, least) is Err,
{
    lemma_stranger_is_met(json_object(s)->Ok_0, names, i);
}

proof fn lemma_stranger_is_met(m: Seq<(Seq<char>, Seq<char>)>, names: Seq<Seq<char>>, i: int)
    requires
        0 <= i < m.len(),
        !names.contains(m[i].0),
    ensures
        stranger(m, names) is Some,
    decreases m.len(),
{
    if i < m.len() - 1 {
        lemma_stranger_is_met(m.drop_last(), names, i);
    }
}

/// What a closed object gives for a listed name: the value of the member of that
/// name, or nothing if it has none.
pub proof fn law_fields_are_the_members(s: Seq<char>, names: Seq<Seq<char>>, least: nat, k: int)
    requires
        json_object(s) is Ok,
        distinct_names(json_object(s)->Ok_0),
        fields(s, names, least) is Ok,
        0 <= k < names.len(),
    ensures
        ({
            let m = json_object(s)->Ok_0;
            let f = fields(s, names, least)->Ok_0;
            &&& f.len() == names.len()
            &&& forall|i: int|
                0 <= i < m.len() && (#[trigger] m[i]).0 == names[k] ==> f[k] == Some(m[i].1)
            &&& (forall|i: int| 0 <= i < m.len() ==> (#[trigger] m[i]).0 != names[k])
                ==> f[k] is None
        }),
{
    let m = json_object(s)->Ok_0;
    assert forall|i: int| 0 <= i < m.len() && (#[trigger] m[i]).0 == names[k] implies lookup(
        m,
        names[k],
    ) == Some(m[i].1) by {
        lemma_lookup_member(m, i);
    }
    if forall|i: int| 0 <= i < m.len() ==> (#[trigger] m[i]).0 != names[k] {
        lemma_lookup_found(m, names[k]);
        if lookup(m, names[k]) is Some {
            let i = choose|i: int| 0 <= i < m.len() && m[i] == (names[k], lookup(m, names[k])->0);
            assert(m[i].0 == names[k]);
        }
    }
}

} // verus!
