//! When two tags are equal: the order of the entries of a compound does not
//! count, as in a mapping; everything else does.

use crate::file::NBTFile;
use crate::{entry_values, values, NBTTag, TagValue};
use vstd::prelude::*;
use vstd::std_specs::cmp::PartialEqSpecImpl;

verus! {

/// Whether among `entries` one has that name and a value that is the same
/// as `value`.
pub open spec fn has_same_entry(
    entries: Seq<(Seq<char>, TagValue)>,
    name: Seq<char>,
    value: TagValue,
) -> bool
    decreases entries, 0int,
{
    exists|i: int|
        0 <= i < entries.len() && (#[trigger] entries[i]).0 == name && same_value(
            entries[i].1,
            value,
        )
}

/// Whether among `entries` one has that name and a value that `value` is
/// the same as.
pub open spec fn has_like_entry(
    value: TagValue,
    name: Seq<char>,
    entries: Seq<(Seq<char>, TagValue)>,
) -> bool
    decreases value, 2int,
{
    exists|j: int|
        0 <= j < entries.len() && (#[trigger] entries[j]).0 == name && same_value(
            value,
            entries[j].1,
        )
}

/// Whether two values are the same. Two lists are the same where they are as
/// long and the same element by element. Two compounds are the same where
/// they are as long and each entry of the one has its like in the other, by
/// name and value, wherever it stands. Every other value is the same as
/// itself alone.
pub open spec fn same_value(a: TagValue, b: TagValue) -> bool
    decreases a, 1int,
{
    match (a, b) {
        (TagValue::List(x), TagValue::List(y)) => {
            &&& x.len() == y.len()
            &&& forall|i: int| 0 <= i < x.len() ==> same_value(#[trigger] x[i], y[i])
        },
        (TagValue::Compound(x), TagValue::Compound(y)) => {
            &&& x.len() == y.len()
            &&& forall|j: int| 0 <= j < y.len() ==> has_same_entry(x, (#[trigger] y[j]).0, y[j].1)
            &&& forall|i: int| 0 <= i < x.len() ==> has_like_entry((#[trigger] x[i]).1, x[i].0, y)
        },
        _ => a == b,
    }
}

/// Whether among `entries` one has that name and a value that is the same
/// as `value`.
fn entry_in(entries: &Vec<(String, NBTTag)>, name: &String, value: &NBTTag) -> (r: bool)
    ensures
        r == has_same_entry(entry_values(entries@), name@, value@),
    decreases entries, 0int,
{
    let ghost all = entry_values(entries@);
    let mut i: usize = 0;
    while i < entries.len()
        invariant
            i <= entries.len(),
            all == entry_values(entries@),
            forall|k: int|
                0 <= k < i ==> !((#[trigger] all[k]).0 == name@ && same_value(all[k].1, value@)),
        decreases entries.len() - i,
    {
        let entry = &entries[i];
        assert(all[i as int] == (entry.0@, entry.1@));
        if entry.0 == *name && same_tag(&entry.1, value) {
            return true;
        }
        i += 1;
    }
    false
}

/// Whether among `entries` one has that name and a value that `value` is
/// the same as.
fn like_in(value: &NBTTag, name: &String, entries: &Vec<(String, NBTTag)>) -> (r: bool)
    ensures
        r == has_like_entry(value@, name@, entry_values(entries@)),
    decreases value, 2int,
{
    let ghost all = entry_values(entries@);
    let mut j: usize = 0;
    while j < entries.len()
        invariant
            j <= entries.len(),
            all == entry_values(entries@),
            forall|k: int|
                0 <= k < j ==> !((#[trigger] all[k]).0 == name@ && same_value(value@, all[k].1)),
        decreases entries.len() - j,
    {
        let entry = &entries[j];
        assert(all[j as int] == (entry.0@, entry.1@));
        if entry.0 == *name && same_tag(value, &entry.1) {
            return true;
        }
        j += 1;
    }
    false
}

/// Whether two tags are the same.
fn same_tag(a: &NBTTag, b: &NBTTag) -> (r: bool)
    ensures
        r == same_value(a@, b@),
    decreases a, 1int,
{
    match (a, b) {
        (NBTTag::TagEnd, NBTTag::TagEnd) => true,
        (NBTTag::TagByte(x), NBTTag::TagByte(y)) => *x == *y,
        (NBTTag::TagShort(x), NBTTag::TagShort(y)) => *x == *y,
        (NBTTag::TagInt(x), NBTTag::TagInt(y)) => *x == *y,
        (NBTTag::TagLong(x), NBTTag::TagLong(y)) => *x == *y,
        (NBTTag::TagFloat(x), NBTTag::TagFloat(y)) => *x == *y,
        (NBTTag::TagDouble(x), NBTTag::TagDouble(y)) => *x == *y,
        (NBTTag::TagByteArray(x), NBTTag::TagByteArray(y)) => {
            let r = *x == *y;
            assert(r == (x@ =~= y@));
            r
        },
        (NBTTag::TagString(x), NBTTag::TagString(y)) => *x == *y,
        (NBTTag::TagList(x), NBTTag::TagList(y)) => {
            if x.len() != y.len() {
                return false;
            }
            let mut i: usize = 0;
            while i < x.len()
                invariant
                    *a == NBTTag::TagList(*x),
                    *b == NBTTag::TagList(*y),
                    x.len() == y.len(),
                    i <= x.len(),
                    forall|k: int| 0 <= k < i ==> same_value(#[trigger] values(x@)[k], values(y@)[k]),
                decreases x.len() - i,
            {
                assert(decreases_to!(a => a->TagList_0[i as int]));
                assert(values(x@)[i as int] == x[i as int]@);
                if !same_tag(&x[i], &y[i]) {
                    return false;
                }
                i += 1;
            }
            assert(a@ == TagValue::List(values(x@)) && b@ == TagValue::List(values(y@)));
            true
        },
        (NBTTag::TagCompound(x), NBTTag::TagCompound(y)) => {
            if x.len() != y.len() {
                return false;
            }
            let ghost xs = entry_values(x@);
            let ghost ys = entry_values(y@);
            let mut j: usize = 0;
            while j < y.len()
                invariant
                    *a == NBTTag::TagCompound(*x),
                    *b == NBTTag::TagCompound(*y),
                    xs == entry_values(x@),
                    ys == entry_values(y@),
                    j <= y.len(),
                    forall|k: int| 0 <= k < j ==> has_same_entry(xs, (#[trigger] ys[k]).0, ys[k].1),
                decreases y.len() - j,
            {
                assert(decreases_to!(a => a->TagCompound_0));
                let entry = &y[j];
                assert(ys[j as int] == (entry.0@, entry.1@));
                if !entry_in(x, &entry.0, &entry.1) {
                    return false;
                }
                j += 1;
            }
            let mut i: usize = 0;
            while i < x.len()
                invariant
                    *a == NBTTag::TagCompound(*x),
                    *b == NBTTag::TagCompound(*y),
                    xs == entry_values(x@),
                    ys == entry_values(y@),
                    x.len() == y.len(),
                    forall|k: int|
                        0 <= k < ys.len() ==> has_same_entry(xs, (#[trigger] ys[k]).0, ys[k].1),
                    i <= x.len(),
                    forall|k: int| 0 <= k < i ==> has_like_entry((#[trigger] xs[k]).1, xs[k].0, ys),
                decreases x.len() - i,
            {
                assert(decreases_to!(a => a->TagCompound_0[i as int].1));
                let entry = &x[i];
                assert(xs[i as int] == (entry.0@, entry.1@));
                if !like_in(&entry.1, &entry.0, y) {
                    return false;
                }
                i += 1;
            }
            true
        },
        (NBTTag::TagIntArray(x), NBTTag::TagIntArray(y)) => {
            let r = *x == *y;
            assert(r == (x@ =~= y@));
            r
        },
        (NBTTag::TagLongArray(x), NBTTag::TagLongArray(y)) => {
            let r = *x == *y;
            assert(r == (x@ =~= y@));
            r
        },
        _ => false,
    }
}

impl PartialEq for NBTTag {
    /// Whether two tags are the same, the order of the entries of a compound
    /// aside.
    fn eq(&self, other: &Self) -> (r: bool) {
        same_tag(self, other)
    }
}

impl PartialEqSpecImpl for NBTTag {
    open spec fn obeys_eq_spec() -> bool {
        true
    }

    open spec fn eq_spec(&self, other: &Self) -> bool {
        same_value(self@, other@)
    }
}

impl PartialEq for NBTFile {
    /// Whether two documents have the same name and the same root.
    fn eq(&self, other: &Self) -> (r: bool) {
        self.root_name == other.root_name && self.root == other.root
    }
}

impl PartialEqSpecImpl for NBTFile {
    open spec fn obeys_eq_spec() -> bool {
        true
    }

    open spec fn eq_spec(&self, other: &Self) -> bool {
        self.root_name@ == other.root_name@ && same_value(self.root@, other.root@)
    }
}

/// Every value is the same as itself.
pub proof fn same_value_reflexive(t: TagValue)
    ensures
        same_value(t, t),
    decreases t,
{
    match t {
        TagValue::List(x) => {
            assert forall|i: int| 0 <= i < x.len() implies same_value(#[trigger] x[i], x[i]) by {
                same_value_reflexive(x[i]);
            }
        },
        TagValue::Compound(x) => {
            assert forall|j: int| 0 <= j < x.len() implies has_same_entry(
                x,
                (#[trigger] x[j]).0,
                x[j].1,
            ) && has_like_entry(x[j].1, x[j].0, x) by {
                same_value_reflexive(x[j].1);
            }
        },
        _ => {},
    }
}

/// If one value is the same as another, the other is the same as the one.
pub proof fn same_value_symmetric(a: TagValue, b: TagValue)
    requires
        same_value(a, b),
    ensures
        same_value(b, a),
    decreases a,
{
    match (a, b) {
        (TagValue::List(x), TagValue::List(y)) => {
            assert forall|i: int| 0 <= i < y.len() implies same_value(#[trigger] y[i], x[i]) by {
                same_value_symmetric(x[i], y[i]);
            }
        },
        (TagValue::Compound(x), TagValue::Compound(y)) => {
            assert forall|i: int| 0 <= i < x.len() implies has_same_entry(
                y,
                (#[trigger] x[i]).0,
                x[i].1,
            ) by {
                assert(has_like_entry(x[i].1, x[i].0, y));
                let j = choose|j: int|
                    0 <= j < y.len() && (#[trigger] y[j]).0 == x[i].0 && same_value(x[i].1, y[j].1);
                same_value_symmetric(x[i].1, y[j].1);
            }
            assert forall|j: int| 0 <= j < y.len() implies has_like_entry(
                (#[trigger] y[j]).1,
                y[j].0,
                x,
            ) by {
                assert(has_same_entry(x, y[j].0, y[j].1));
                let i = choose|i: int|
                    0 <= i < x.len() && (#[trigger] x[i]).0 == y[j].0 && same_value(x[i].1, y[j].1);
                same_value_symmetric(x[i].1, y[j].1);
            }
        },
        _ => {},
    }
}

/// If one value is the same as a second and the second the same as a third,
/// the first is the same as the third.
pub proof fn same_value_transitive(a: TagValue, b: TagValue, c: TagValue)
    requires
        same_value(a, b),
        same_value(b, c),
    ensures
        same_value(a, c),
    decreases a,
{
    match (a, b, c) {
        (TagValue::List(x), TagValue::List(y), TagValue::List(z)) => {
            assert forall|i: int| 0 <= i < x.len() implies same_value(#[trigger] x[i], z[i]) by {
                same_value_transitive(x[i], y[i], z[i]);
            }
        },
        (TagValue::Compound(x), TagValue::Compound(y), TagValue::Compound(z)) => {
            assert forall|k: int| 0 <= k < z.len() implies has_same_entry(
                x,
                (#[trigger] z[k]).0,
                z[k].1,
            ) by {
                assert(has_same_entry(y, z[k].0, z[k].1));
                let j = choose|j: int|
                    0 <= j < y.len() && (#[trigger] y[j]).0 == z[k].0 && same_value(y[j].1, z[k].1);
                assert(has_same_entry(x, y[j].0, y[j].1));
                let i = choose|i: int|
                    0 <= i < x.len() && (#[trigger] x[i]).0 == y[j].0 && same_value(x[i].1, y[j].1);
                same_value_transitive(x[i].1, y[j].1, z[k].1);
            }
            assert forall|i: int| 0 <= i < x.len() implies has_like_entry(
                (#[trigger] x[i]).1,
                x[i].0,
                z,
            ) by {
                assert(has_like_entry(x[i].1, x[i].0, y));
                let j = choose|j: int|
                    0 <= j < y.len() && (#[trigger] y[j]).0 == x[i].0 && same_value(x[i].1, y[j].1);
                assert(has_like_entry(y[j].1, y[j].0, z));
                let k = choose|k: int|
                    0 <= k < z.len() && (#[trigger] z[k]).0 == y[j].0 && same_value(y[j].1, z[k].1);
                same_value_transitive(x[i].1, y[j].1, z[k].1);
            }
        },
        _ => {},
    }
}

} // verus!
