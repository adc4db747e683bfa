//! Restoring a stored entry onto the live clipboard.
use vstd::prelude::*;
use vstd::string::StrSliceExecFns;
use crate::clipboard::{Clipboard, ClipboardError};
use crate::storage::Storage;
use crate::type_map::TypeMap;

verus! {

/// ASCII white space, as trimmed around the identifier.
pub open spec fn is_blank(c: char) -> bool {
    c == ' ' || c == '\t' || c == '\n' || c == '\r' || c == '\x0b' || c == '\x0c'
}

pub open spec fn is_digit(c: char) -> bool {
    '0' as u32 <= c as u32 <= '9' as u32
}

/// `k` is where the first field of `s` ends: at the first `|`, or at the end.
pub open spec fn field_end(s: Seq<char>, k: int) -> bool {
    &&& 0 <= k <= s.len()
    &&& forall|j: int| 0 <= j < k ==> s[j] != '|'
    &&& k == s.len() || s[k] == '|'
}

/// `a..b` is `f` without its leading and trailing white space.
pub open spec fn trim_bounds(f: Seq<char>, a: int, b: int) -> bool {
    &&& 0 <= a <= b <= f.len()
    &&& forall|j: int| 0 <= j < a ==> is_blank(f[j])
    &&& forall|j: int| b <= j < f.len() ==> is_blank(f[j])
    &&& a < b ==> !is_blank(f[a]) && !is_blank(f[b - 1])
    &&& a == b ==> forall|j: int| 0 <= j < f.len() ==> is_blank(f[j])
}

/// The text before the first `|` of `s`, without surrounding white space.
pub open spec fn id_text(s: Seq<char>) -> Seq<char> {
    let k = choose|k: int| field_end(s, k);
    let f = s.take(k);
    let ab = choose|ab: (int, int)| trim_bounds(f, ab.0, ab.1);
    f.subrange(ab.0, ab.1)
}

/// The number that a string of decimal digits writes.
pub open spec fn decimal(d: Seq<char>) -> nat
    decreases d.len(),
{
    if d.len() == 0 {
        0
    } else {
        decimal(d.drop_last()) * 10 + (d.last() as u32 - '0' as u32) as nat
    }
}

/// Every character of `d` is a decimal digit.
pub open spec fn all_digits(d: Seq<char>) -> bool {
    forall|j: int| 0 <= j < d.len() ==> is_digit(#[trigger] d[j])
}

/// `t` without a leading `+`.
pub open spec fn digits_part(t: Seq<char>) -> Seq<char> {
    if t.len() > 0 && t[0] == '+' {
        t.drop_first()
    } else {
        t
    }
}

/// The unsigned number that `t` writes: decimal digits, with an optional
/// leading `+`, whose value fits in 64 bits.
pub open spec fn number_of(t: Seq<char>) -> Option<u64> {
    let d = digits_part(t);
    if d.len() > 0 && all_digits(d) && decimal(d) <= u64::MAX {
        Some(decimal(d) as u64)
    } else {
        None
    }
}

/// The identifier a pick input names: the number before the first `|`.
pub open spec fn id_of(input: Seq<char>) -> Option<u64> {
    number_of(id_text(input))
}

proof fn lemma_field_end_unique(s: Seq<char>, k1: int, k2: int)
    requires
        field_end(s, k1),
        field_end(s, k2),
    ensures
        k1 == k2,
{
    if k1 < k2 {
        assert(s[k1] != '|');
    } else if k2 < k1 {
        assert(s[k2] != '|');
    }
}

proof fn lemma_trim_bounds_unique(f: Seq<char>, a1: int, b1: int, a2: int, b2: int)
    requires
        trim_bounds(f, a1, b1),
        trim_bounds(f, a2, b2),
    ensures
        f.subrange(a1, b1) == f.subrange(a2, b2),
{
    if a1 < b1 && a2 < b2 {
        assert(!is_blank(f[a1]) && !is_blank(f[a2]));
        assert(!is_blank(f[b1 - 1]) && !is_blank(f[b2 - 1]));
        assert(a1 == a2 && b1 == b2);
    } else if a1 < b1 {
        assert(!is_blank(f[a1]));
    } else if a2 < b2 {
        assert(!is_blank(f[a2]));
    } else {
        assert(f.subrange(a1, b1) =~= f.subrange(a2, b2));
    }
}

proof fn lemma_decimal_prefix(d: Seq<char>, k: int)
    requires
        0 <= k <= d.len(),
        all_digits(d),
    ensures
        decimal(d.take(k)) <= decimal(d),
    decreases d.len(),
{
    if k < d.len() {
        let p = d.drop_last();
        assert(p.take(k) =~= d.take(k));
        assert(all_digits(p)) by {
            assert forall|j: int| 0 <= j < p.len() implies is_digit(#[trigger] p[j]) by {
                assert(p[j] == d[j]);
            }
        }
        lemma_decimal_prefix(p, k);
    } else {
        assert(d.take(k) =~= d);
    }
}

fn is_blank_char(c: char) -> (r: bool)
    ensures
        r == is_blank(c),
{
    c == ' ' || c == '\t' || c == '\n' || c == '\r' || c == '\x0b' || c == '\x0c'
}

/// The number that `t` writes; see `number_of`.
fn parse_number(t: &[char]) -> (r: Option<u64>)
    ensures
        r == number_of(t@),
{
    let ghost tv = t@;
    let mut i: usize = 0;
    if t.len() > 0 && t[0] == '+' {
        i = 1;
    }
    let start = i;
    let ghost d = digits_part(tv);
    assert(d =~= tv.subrange(start as int, tv.len() as int));
    if start == t.len() {
        assert(d.len() == 0);
        return None;
    }
    let mut v: u64 = 0;
    assert(d.take(0) =~= Seq::<char>::empty());
    while i < t.len()
        invariant
            tv == t@,
            d == digits_part(tv),
            d == tv.subrange(start as int, tv.len() as int),
            start <= i <= tv.len(),
            start < tv.len(),
            forall|j: int| 0 <= j < i - start ==> is_digit(#[trigger] d[j]),
            v == decimal(d.take(i - start)),
        decreases tv.len() - i,
    {
        let c = t[i];
        assert(c == d[i - start]);
        if (c as u32) < ('0' as u32) || (c as u32) > ('9' as u32) {
            assert(!all_digits(d)) by {
                assert(!is_digit(d[i - start]));
            }
            return None;
        }
        let digit = (c as u32 - '0' as u32) as u64;
        let ghost k = i - start;
        assert(d.take(k + 1).drop_last() =~= d.take(k));
        assert(d.take(k + 1).last() == c);
        assert(decimal(d.take(k + 1)) == decimal(d.take(k)) * 10 + digit);
        match v.checked_mul(10) {
            Some(w) => match w.checked_add(digit) {
                Some(x) => {
                    v = x;
                },
                None => {
                    proof {
                        assert(decimal(d.take(k + 1)) > u64::MAX);
                        if all_digits(d) {
                            lemma_decimal_prefix(d, k + 1);
                        }
                    }
                    return None;
                },
            },
            None => {
                proof {
                    assert(decimal(d.take(k + 1)) > u64::MAX);
                    if all_digits(d) {
                        lemma_decimal_prefix(d, k + 1);
                    }
                }
                return None;
            },
        }
        i = i + 1;
    }
    assert(d.take(d.len() as int) =~= d);
    Some(v)
}

/// The identifier that a pick input names, where it names one.
pub fn parse_pick_input(input: &str) -> (r: Option<u64>)
    ensures
        r == id_of(input@),
{
    let ghost s = input@;
    let n = input.unicode_len();
    let mut chars: Vec<char> = Vec::new();
    let mut k: usize = 0;
    while k < n
        invariant
            n == s.len(),
            s == input@,
            k <= n,
            chars@ == s.take(k as int),
            forall|j: int| 0 <= j < k ==> s[j] != '|',
        ensures
            k <= n,
            chars@ == s.take(k as int),
            forall|j: int| 0 <= j < k ==> s[j] != '|',
            k == n || s[k as int] == '|',
        decreases n - k,
    {
        let c = input.get_char(k);
        if c == '|' {
            break;
        }
        chars.push(c);
        k = k + 1;
        assert(chars@ =~= s.take(k as int));
    }
    proof {
        assert(field_end(s, k as int));
        let k0 = choose|k0: int| field_end(s, k0);
        lemma_field_end_unique(s, k as int, k0);
    }
    let ghost f = chars@;
    let mut a: usize = 0;
    while a < chars.len() && is_blank_char(chars[a])
        invariant
            f == chars@,
            a <= f.len(),
            forall|j: int| 0 <= j < a ==> is_blank(f[j]),
        ensures
            a <= f.len(),
            forall|j: int| 0 <= j < a ==> is_blank(f[j]),
            a == f.len() || !is_blank(f[a as int]),
        decreases f.len() - a,
    {
        a = a + 1;
    }
    let mut b: usize = chars.len();
    while b > a && is_blank_char(chars[b - 1])
        invariant
            f == chars@,
            a <= b <= f.len(),
            forall|j: int| b <= j < f.len() ==> is_blank(f[j]),
        ensures
            a <= b <= f.len(),
            forall|j: int| b <= j < f.len() ==> is_blank(f[j]),
            b == a || !is_blank(f[b - 1]),
        decreases b,
    {
        b = b - 1;
    }
    proof {
        let w = (a as int, b as int);
        assert(trim_bounds(f, w.0, w.1));
        let ab = choose|ab: (int, int)| trim_bounds(f, ab.0, ab.1);
        lemma_trim_bounds_unique(f, a as int, b as int, ab.0, ab.1);
    }
    let mut field: Vec<char> = Vec::new();
    let mut i: usize = a;
    while i < b
        invariant
            f == chars@,
            a <= i <= b <= f.len(),
            field@ == f.subrange(a as int, i as int),
        decreases b - i,
    {
        field.push(chars[i]);
        i = i + 1;
        assert(field@ =~= f.subrange(a as int, i as int));
    }
    parse_number(field.as_slice())
}

/// Why an entry could not be restored.
#[derive(Debug)]
pub enum PickError {
    /// The input names no identifier.
    InvalidId,
    /// No entry has this identifier.
    NotFound(u64),
    /// The clipboard refused the content.
    Clipboard(ClipboardError),
}

/// Whether `i` is the newest entry of `storage` with identifier `id`.
pub open spec fn first_with_id(storage: Storage, i: int, id: u64) -> bool {
    &&& 0 <= i < storage@.entries.len()
    &&& storage@.entries[i].id == id
    &&& forall|j: int| 0 <= j < i ==> storage@.entries[j].id != id
}

/// The content types and payloads to republish for `input`: those of the
/// newest entry whose identifier the input names.
pub fn pick_target<'a>(storage: &'a Storage, input: &str) -> (r: Result<&'a TypeMap, PickError>)
    requires
        storage.wf(),
    ensures
        r matches Err(PickError::InvalidId) <==> id_of(input@) is None,
        r matches Err(PickError::NotFound(id)) ==> id_of(input@) == Some(id),
        (r matches Err(PickError::NotFound(_))) <==> (id_of(input@) matches Some(id) && !exists|
            i: int,
        | 0 <= i < storage@.entries.len() && storage@.entries[i].id == id),
        !(r matches Err(PickError::Clipboard(_))),
        r is Ok ==> r->Ok_0.wf() && exists|i: int|
            first_with_id(*storage, i, id_of(input@)->Some_0) && r->Ok_0@
                == storage@.entries[i].types,
{
    let id = match parse_pick_input(input) {
        Some(id) => id,
        None => {
            return Err(PickError::InvalidId);
        },
    };
    match storage.get_entry_by_id(id) {
        Some(entry) => {
            proof {
                let i = choose|i: int|
                    0 <= i < storage@.entries.len() && storage@.entries[i] == entry@ && entry.id == id
                        && forall|j: int| 0 <= j < i ==> storage@.entries[j].id != id;
                assert(first_with_id(*storage, i, id));
            }
            Ok(&entry.types)
        },
        None => Err(PickError::NotFound(id)),
    }
}

/// Restores the entry that `input` names onto the clipboard: the content
/// types and payloads that `pick_target` gives are published, all at once.
/// Fails without publishing where the input names no entry; a refusal by
/// the clipboard is passed on.
pub fn pick<C: Clipboard>(clipboard: &mut C, storage: &Storage, input: &str) -> (r: Result<
    (),
    PickError,
>)
    requires
        storage.wf(),
    ensures
        r matches Err(PickError::InvalidId) <==> id_of(input@) is None,
        r matches Err(PickError::NotFound(id)) ==> id_of(input@) == Some(id),
        (r matches Err(PickError::NotFound(_))) <==> (id_of(input@) matches Some(id) && !exists|
            i: int,
        | 0 <= i < storage@.entries.len() && storage@.entries[i].id == id),
        (r is Ok || r matches Err(PickError::Clipboard(_))) ==> exists|i: int|
            first_with_id(*storage, i, id_of(input@)->Some_0),
{
    match pick_target(storage, input) {
        Ok(types) => match clipboard.set_types(types) {
            Ok(()) => Ok(()),
            Err(e) => Err(PickError::Clipboard(e)),
        },
        Err(e) => Err(e),
    }
}

} // verus!
