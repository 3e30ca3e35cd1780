use vstd::prelude::*;

verus! {

/// A tree of plain values that the state of a terminal is saved as.
#[derive(Debug)]
pub enum SnapshotItem {
    Int(i64),
    Bool(bool),
    String(String),
    Array(Vec<SnapshotItem>),
    Dict(Vec<(String, SnapshotItem)>),
}

/// The value under `key` in `entries`, the first one where a key repeats.
pub open spec fn entry_value(entries: Seq<(String, SnapshotItem)>, key: Seq<char>) -> Option<SnapshotItem>
    decreases entries.len(),
{
    if entries.len() == 0 {
        None
    } else if entries[0].0@ == key {
        Some(entries[0].1)
    } else {
        entry_value(entries.drop_first(), key)
    }
}

/// The value under `key` where `s` is a map.
pub open spec fn field(s: SnapshotItem, key: Seq<char>) -> Option<SnapshotItem> {
    match s {
        SnapshotItem::Dict(entries) => entry_value(entries@, key),
        _ => None,
    }
}

/// An integer that fits a `usize`.
pub open spec fn as_usize(s: SnapshotItem) -> Option<usize> {
    match s {
        SnapshotItem::Int(v) => if 0 <= v && v <= usize::MAX {
            Some(v as usize)
        } else {
            None
        },
        _ => None,
    }
}

pub open spec fn as_bool(s: SnapshotItem) -> Option<bool> {
    match s {
        SnapshotItem::Bool(b) => Some(b),
        _ => None,
    }
}

/// An array of integers that each fit a byte.
pub open spec fn as_bytes(s: SnapshotItem) -> Option<Seq<u8>> {
    match s {
        SnapshotItem::Array(items) => if forall|i: int|
            0 <= i < items@.len() ==> (#[trigger] items@[i] is Int && 0 <= items@[i]->Int_0 <= 255) {
            Some(Seq::new(items@.len(), |i: int| items@[i]->Int_0 as u8))
        } else {
            None
        },
        _ => None,
    }
}

/// An array of integers that each fit a `usize`.
pub open spec fn as_usizes(s: SnapshotItem) -> Option<Seq<usize>> {
    match s {
        SnapshotItem::Array(items) => if forall|i: int|
            0 <= i < items@.len() ==> (#[trigger] items@[i] is Int && 0 <= items@[i]->Int_0 <= usize::MAX) {
            Some(Seq::new(items@.len(), |i: int| items@[i]->Int_0 as usize))
        } else {
            None
        },
        _ => None,
    }
}

/// The key as an owned string.
pub fn key_string(k: &str) -> (r: String)
    ensures
        r@ == k@,
{
    k.to_owned()
}

/// The value under `key`, where `s` is a map that has it.
pub fn get_field<'a>(s: &'a SnapshotItem, key: &str) -> (r: Option<&'a SnapshotItem>)
    ensures
        match r {
            Some(v) => field(*s, key@) == Some(*v),
            None => field(*s, key@).is_none(),
        },
{
    match s {
        SnapshotItem::Dict(entries) => {
            let k = key_string(key);
            let mut i: usize = 0;
            assert(entries@.subrange(0, entries@.len() as int) =~= entries@);
            while i < entries.len()
                invariant
                    *s == SnapshotItem::Dict(*entries),
                    i <= entries@.len(),
                    k@ == key@,
                    entry_value(entries@, key@) == entry_value(entries@.subrange(i as int, entries@.len() as int), key@),
                decreases entries.len() - i,
            {
                let ghost rest = entries@.subrange(i as int, entries@.len() as int);
                assert(rest.drop_first() =~= entries@.subrange(i + 1, entries@.len() as int));
                assert(rest[0] == entries@[i as int]);
                if entries[i].0 == k {
                    assert(entry_value(rest, key@) == Some(entries@[i as int].1));
                    return Some(&entries[i].1);
                }
                i += 1;
            }
            None
        },
        _ => None,
    }
}

/// An integer item; `None` where the value does not fit an `i64`.
pub fn usize_item(v: usize) -> (r: Option<SnapshotItem>)
    ensures
        v <= i64::MAX ==> r == Some(SnapshotItem::Int(v as i64)),
        v > i64::MAX ==> r.is_none(),
{
    if (v as u64) <= (i64::MAX as u64) {
        Some(SnapshotItem::Int(v as i64))
    } else {
        None
    }
}

/// The value of an integer item that fits a `usize`.
pub fn read_usize(s: &SnapshotItem) -> (r: Option<usize>)
    ensures
        r == as_usize(*s),
{
    match s {
        SnapshotItem::Int(v) => if *v >= 0 && (*v as u64) <= (usize::MAX as u64) {
            Some(*v as usize)
        } else {
            None
        },
        _ => None,
    }
}

/// The value of a boolean item.
pub fn read_bool(s: &SnapshotItem) -> (r: Option<bool>)
    ensures
        r == as_bool(*s),
{
    match s {
        SnapshotItem::Bool(b) => Some(*b),
        _ => None,
    }
}

/// An array of integers, one for each byte.
pub fn bytes_item(b: &[u8]) -> (r: SnapshotItem)
    ensures
        as_bytes(r) == Some(b@),
{
    let mut items: Vec<SnapshotItem> = Vec::new();
    let mut i: usize = 0;
    while i < b.len()
        invariant
            i <= b.len(),
            items@.len() == i,
            forall|j: int| 0 <= j < i ==> #[trigger] items@[j] == SnapshotItem::Int(b@[j] as i64),
        decreases b.len() - i,
    {
        items.push(SnapshotItem::Int(b[i] as i64));
        i += 1;
    }
    let r = SnapshotItem::Array(items);
    assert(as_bytes(r).unwrap() =~= b@);
    r
}

/// The bytes of an array of integers that each fit a byte.
pub fn read_bytes(s: &SnapshotItem) -> (r: Option<Vec<u8>>)
    ensures
        match r {
            Some(v) => as_bytes(*s) == Some(v@),
            None => as_bytes(*s).is_none(),
        },
{
    match s {
        SnapshotItem::Array(items) => {
            let mut out: Vec<u8> = Vec::new();
            let mut i: usize = 0;
            while i < items.len()
                invariant
                    *s == SnapshotItem::Array(*items),
                    i <= items@.len(),
                    out@.len() == i,
                    forall|j: int| 0 <= j < i ==> (#[trigger] items@[j] is Int && 0 <= items@[j]->Int_0 <= 255 && out@[j] == items@[j]->Int_0 as u8),
                decreases items.len() - i,
            {
                match &items[i] {
                    SnapshotItem::Int(v) => {
                        if *v < 0 || *v > 255 {
                            assert(!(items@[i as int] is Int && 0 <= items@[i as int]->Int_0 <= 255));
                            return None;
                        }
                        out.push(*v as u8);
                    },
                    _ => {
                        assert(!(items@[i as int] is Int));
                        return None;
                    },
                }
                i += 1;
            }
            assert(as_bytes(*s).unwrap() =~= out@);
            Some(out)
        },
        _ => None,
    }
}

/// An array of integers, one for each value; `None` where one does not fit an `i64`.
pub fn usizes_item(v: &[usize]) -> (r: Option<SnapshotItem>)
    ensures
        match r {
            Some(s) => as_usizes(s) == Some(v@),
            None => exists|i: int| 0 <= i < v@.len() && #[trigger] v@[i] > i64::MAX,
        },
{
    let mut items: Vec<SnapshotItem> = Vec::new();
    let mut i: usize = 0;
    while i < v.len()
        invariant
            i <= v.len(),
            items@.len() == i,
            forall|j: int| 0 <= j < i ==> #[trigger] items@[j] == SnapshotItem::Int(v@[j] as i64) && v@[j] <= i64::MAX,
        decreases v.len() - i,
    {
        match usize_item(v[i]) {
            Some(item) => items.push(item),
            None => {
                return None;
            },
        }
        i += 1;
    }
    let r = SnapshotItem::Array(items);
    assert(as_usizes(r).unwrap() =~= v@);
    Some(r)
}

/// The values of an array of integers that each fit a `usize`.
pub fn read_usizes(s: &SnapshotItem) -> (r: Option<Vec<usize>>)
    ensures
        match r {
            Some(v) => as_usizes(*s) == Some(v@),
            None => as_usizes(*s).is_none(),
        },
{
    match s {
        SnapshotItem::Array(items) => {
            let mut out: Vec<usize> = Vec::new();
            let mut i: usize = 0;
            while i < items.len()
                invariant
                    *s == SnapshotItem::Array(*items),
                    i <= items@.len(),
                    out@.len() == i,
                    forall|j: int| 0 <= j < i ==> (#[trigger] items@[j] is Int && 0 <= items@[j]->Int_0 <= usize::MAX && out@[j] == items@[j]->Int_0 as usize),
                decreases items.len() - i,
            {
                match read_usize(&items[i]) {
                    Some(v) => out.push(v),
                    None => {
                        assert(!(items@[i as int] is Int && 0 <= items@[i as int]->Int_0 <= usize::MAX));
                        return None;
                    },
                }
                i += 1;
            }
            assert(as_usizes(*s).unwrap() =~= out@);
            Some(out)
        },
        _ => None,
    }
}

/// The value under a key is that of its first entry.
pub proof fn lemma_entry_at(e: Seq<(String, SnapshotItem)>, i: int, key: Seq<char>)
    requires
        0 <= i < e.len(),
        e[i].0@ == key,
        forall|j: int| 0 <= j < i ==> (#[trigger] e[j]).0@ != key,
    ensures
        entry_value(e, key) == Some(e[i].1),
    decreases i,
{
    if i > 0 {
        assert forall|j: int| 0 <= j < i - 1 implies (#[trigger] e.drop_first()[j]).0@ != key by {
            assert(e.drop_first()[j] == e[j + 1]);
        }
        assert(e.drop_first()[i - 1] == e[i]);
        lemma_entry_at(e.drop_first(), i - 1, key);
    }
}

} // verus!
