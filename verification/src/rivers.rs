//! The rivers of one node, by name.

use vstd::prelude::*;
use vstd::string::*;
use vstd::utf8::encode_utf8;
use crate::layout::appended;
use crate::river::{peek_view, peeked, push_outcome, stored, PeekResult, River, StorageError};

verus! {

/// The byte of a dot.
pub const DOT: u8 = 46;

/// The byte of a slash.
pub const SLASH: u8 = 47;

/// The byte of a backslash.
pub const BACKSLASH: u8 = 92;

/// Whether a river's name can serve as the name of its backing store: it
/// is not empty, not `.` and not `..`, and holds no slash, no backslash and
/// no zero byte, so that it names no place outside the directory of the
/// stores.
pub open spec fn storable(name: Seq<u8>) -> bool {
    &&& name.len() > 0
    &&& name != seq![DOT]
    &&& name != seq![DOT, DOT]
    &&& forall|i: int|
        0 <= i < name.len() ==> #[trigger] name[i] != SLASH && name[i] != BACKSLASH && name[i]
            != 0
}

/// Whether the river's name can serve as the name of its backing store.
pub fn is_storable_name(river: &str) -> (r: bool)
    ensures
        r == storable(encode_utf8(river@)),
{
    let name = river.as_bytes();
    let len: usize = name.len();
    if len == 0 {
        return false;
    }
    if len == 1 && name[0] == DOT {
        proof {
            assert(name@ =~= seq![DOT]);
        }
        return false;
    }
    if len == 2 && name[0] == DOT && name[1] == DOT {
        proof {
            assert(name@ =~= seq![DOT, DOT]);
        }
        return false;
    }
    proof {
        if name@ == seq![DOT] {
            assert(seq![DOT][0] == DOT);
        }
        if name@ == seq![DOT, DOT] {
            assert(seq![DOT, DOT][0] == DOT);
            assert(seq![DOT, DOT][1] == DOT);
        }
    }
    let mut i: usize = 0;
    while i < len
        invariant
            i <= len == name@.len(),
            name@ == encode_utf8(river@),
            name@ != seq![DOT],
            name@ != seq![DOT, DOT],
            forall|j: int|
                0 <= j < i ==> #[trigger] name@[j] != SLASH && name@[j] != BACKSLASH && name@[j]
                    != 0,
        decreases len - i,
    {
        let byte: u8 = name[i];
        if byte == SLASH || byte == BACKSLASH || byte == 0 {
            assert(name@[i as int] == byte);
            return false;
        }
        i += 1;
    }
    true
}

/// The directory of the backing stores, with the slash that ends it.
pub open spec fn stores_directory() -> Seq<char> {
    "./tmp/rivers/"@
}

/// Where the backing store of the river is kept, if its name is storable.
pub fn storage_path(river: &str) -> (r: Option<String>)
    ensures
        match r {
            Some(path) => storable(encode_utf8(river@)) && path@ == stores_directory() + river@,
            None => !storable(encode_utf8(river@)),
        },
{
    if is_storable_name(river) {
        Some(String::from_str("./tmp/rivers/").concat(river))
    } else {
        None
    }
}

/// The bytes that `files` holds under `name`; none where it holds no such
/// river.
pub open spec fn content(files: Map<Seq<char>, Seq<u8>>, name: Seq<char>) -> Seq<u8> {
    if files.dom().contains(name) {
        files[name]
    } else {
        Seq::empty()
    }
}

/// The stores after `message` was appended to the river `river`.
pub open spec fn pushed(
    files: Map<Seq<char>, Seq<u8>>,
    river: Seq<char>,
    message: Seq<char>,
) -> Map<Seq<char>, Seq<u8>> {
    files.insert(river, appended(content(files, river), encode_utf8(message)))
}

/// The stores after a peek at the river `river`, which creates the river's
/// store where it was absent.
pub open spec fn touched(files: Map<Seq<char>, Seq<u8>>, river: Seq<char>) -> Map<
    Seq<char>,
    Seq<u8>,
> {
    files.insert(river, content(files, river))
}

/// The stores after the river `river` was cleared.
pub open spec fn cleared(files: Map<Seq<char>, Seq<u8>>, river: Seq<char>) -> Map<
    Seq<char>,
    Seq<u8>,
> {
    files.remove(river)
}

/// The backing stores of a node's rivers. Its view maps the name of each
/// river whose store exists to the bytes in it.
pub struct Rivers {
    rivers: Vec<River>,
}

impl View for Rivers {
    type V = Map<Seq<char>, Seq<u8>>;

    closed spec fn view(&self) -> Map<Seq<char>, Seq<u8>> {
        Map::new(
            |name: Seq<char>| self.holds(name),
            |name: Seq<char>| stored(self.rivers[self.index_of(name)]@.file),
        )
    }
}

impl Rivers {
    /// Whether a river of that name is kept.
    pub closed spec fn holds(&self, name: Seq<char>) -> bool {
        exists|i: int| 0 <= i < self.rivers.len() && #[trigger] self.rivers[i]@.name == name
    }

    /// Where the river of that name is kept.
    pub closed spec fn index_of(&self, name: Seq<char>) -> int {
        choose|i: int| 0 <= i < self.rivers.len() && #[trigger] self.rivers[i]@.name == name
    }

    /// Each river that is kept has a backing store, and no name is kept twice.
    pub closed spec fn wf(&self) -> bool {
        &&& forall|i: int| 0 <= i < self.rivers.len() ==> (#[trigger] self.rivers[i]@).file is Some
        &&& forall|i: int, j: int|
            0 <= i < j < self.rivers.len() ==> (#[trigger] self.rivers[i]@).name
                != (#[trigger] self.rivers[j]@).name
    }

    proof fn lemma_kept(&self, i: int)
        requires
            self.wf(),
            0 <= i < self.rivers.len(),
        ensures
            self@.dom().contains(self.rivers[i]@.name),
            self@[self.rivers[i]@.name] == stored(self.rivers[i]@.file),
            self.index_of(self.rivers[i]@.name) == i,
    {
        let name = self.rivers[i]@.name;
        let j = self.index_of(name);
        assert(self.rivers[j]@.name == name);
        if i < j {
            assert(self.rivers[i]@.name != self.rivers[j]@.name);
        } else if j < i {
            assert(self.rivers[j]@.name != self.rivers[i]@.name);
        }
    }

    /// No rivers.
    pub fn new() -> (r: Rivers)
        ensures
            r.wf(),
            r@ == Map::<Seq<char>, Seq<u8>>::empty(),
    {
        let r = Rivers { rivers: Vec::new() };
        proof {
            assert(r@ =~= Map::<Seq<char>, Seq<u8>>::empty());
        }
        r
    }

    /// Where the river of that name is kept, if it is.
    fn position(&self, river: &str) -> (r: Option<usize>)
        requires
            self.wf(),
        ensures
            match r {
                Some(i) => i < self.rivers.len() && self.rivers[i as int]@.name == river@,
                None => !self@.dom().contains(river@),
            },
    {
        let wanted: String = river.to_owned();
        let mut i: usize = 0;
        while i < self.rivers.len()
            invariant
                i <= self.rivers.len(),
                wanted@ == river@,
                forall|j: int| 0 <= j < i ==> (#[trigger] self.rivers[j]@).name != river@,
            decreases self.rivers.len() - i,
        {
            if *self.rivers[i].name() == wanted {
                return Some(i);
            }
            i += 1;
        }
        None
    }

    /// Whether the backing store of that river exists.
    pub fn contains(&self, river: &str) -> (r: bool)
        requires
            self.wf(),
        ensures
            r == self@.dom().contains(river@),
    {
        match self.position(river) {
            Some(i) => {
                proof {
                    self.lemma_kept(i as int);
                }
                true
            },
            None => false,
        }
    }

    /// The bytes of that river's backing store, if it exists.
    pub fn bytes(&self, river: &str) -> (r: Option<&Vec<u8>>)
        requires
            self.wf(),
        ensures
            match r {
                Some(data) => self@.dom().contains(river@) && self@[river@] == data@,
                None => !self@.dom().contains(river@),
            },
    {
        match self.position(river) {
            Some(i) => {
                proof {
                    self.lemma_kept(i as int);
                }
                self.rivers[i].bytes()
            },
            None => None,
        }
    }

    /// Puts a backing store that holds `data` under that name, in place of
    /// the one that may be there.
    pub fn open(&mut self, river: &str, data: Vec<u8>)
        requires
            old(self).wf(),
        ensures
            final(self).wf(),
            final(self)@ == old(self)@.insert(river@, data@),
    {
        let opened = River::open(river, data);
        self.put(opened);
    }

    /// Replacing a kept river by one of the same name replaces its bytes.
    proof fn lemma_replaced(before: Rivers, after: Rivers, i: int, river: River)
        requires
            before.wf(),
            0 <= i < before.rivers.len(),
            river@.name == before.rivers[i]@.name,
            river@.file is Some,
            after.rivers@ == before.rivers@.update(i, river),
        ensures
            after.wf(),
            after@ == before@.insert(river@.name, stored(river@.file)),
    {
        let name = river@.name;
        assert(forall|j: int|
            0 <= j < after.rivers.len() ==> (#[trigger] after.rivers[j]@).name
                == before.rivers[j]@.name);
        assert(after.wf());
        after.lemma_kept(i);
        assert forall|other: Seq<char>| other != name implies (after.holds(other) <==> before.holds(
            other,
        )) && (after.holds(other) ==> after@[other] == before@[other]) by {
            if before.holds(other) {
                let j = before.index_of(other);
                assert(after.rivers[j]@.name == other);
                after.lemma_kept(j);
                before.lemma_kept(j);
            }
            if after.holds(other) {
                let j = after.index_of(other);
                assert(before.rivers[j]@.name == other);
            }
        }
        assert(after@ =~= before@.insert(name, stored(river@.file)));
    }

    /// Keeping one more river, of a name that is not kept, adds its bytes.
    proof fn lemma_added(before: Rivers, after: Rivers, river: River)
        requires
            before.wf(),
            !before@.dom().contains(river@.name),
            river@.file is Some,
            after.rivers@ == before.rivers@.push(river),
        ensures
            after.wf(),
            after@ == before@.insert(river@.name, stored(river@.file)),
    {
        let name = river@.name;
        let last = after.rivers.len() - 1;
        assert forall|j: int| 0 <= j < last implies after.rivers[j] == before.rivers[j] && (
        #[trigger] before.rivers[j]@).name != name by {
            before.lemma_kept(j);
        }
        assert(after.wf());
        after.lemma_kept(last);
        assert forall|other: Seq<char>| other != name implies (after.holds(other) <==> before.holds(
            other,
        )) && (after.holds(other) ==> after@[other] == before@[other]) by {
            if before.holds(other) {
                let j = before.index_of(other);
                assert(after.rivers[j]@.name == other);
                after.lemma_kept(j);
                before.lemma_kept(j);
            }
            if after.holds(other) {
                let j = after.index_of(other);
                assert(before.rivers[j]@.name == other);
            }
        }
        assert(after@ =~= before@.insert(name, stored(river@.file)));
    }

    /// Dropping a kept river drops its bytes.
    proof fn lemma_removed(before: Rivers, after: Rivers, i: int)
        requires
            before.wf(),
            0 <= i < before.rivers.len(),
            after.rivers@ == before.rivers@.remove(i),
        ensures
            after.wf(),
            after@ == before@.remove(before.rivers[i]@.name),
    {
        let name = before.rivers[i]@.name;
        assert(forall|j: int|
            0 <= j < after.rivers.len() ==> #[trigger] after.rivers[j] == before.rivers[if j < i {
                j
            } else {
                j + 1
            }]);
        assert(after.wf());
        if after.holds(name) {
            let j = after.index_of(name);
            before.lemma_kept(i);
            before.lemma_kept(if j < i {
                j
            } else {
                j + 1
            });
        }
        assert forall|other: Seq<char>| other != name implies (after.holds(other) <==> before.holds(
            other,
        )) && (after.holds(other) ==> after@[other] == before@[other]) by {
            if before.holds(other) {
                let j = before.index_of(other);
                let k = if j < i {
                    j
                } else {
                    j - 1
                };
                assert(after.rivers[k]@.name == other);
                after.lemma_kept(k);
                before.lemma_kept(j);
            }
            if after.holds(other) {
                let j = after.index_of(other);
                assert(before.rivers[if j < i {
                    j
                } else {
                    j + 1
                }]@.name == other);
            }
        }
        assert(after@ =~= before@.remove(name));
    }

    /// Keeps `river`, in place of the one of its name that may be kept.
    fn put(&mut self, river: River)
        requires
            old(self).wf(),
            river@.file is Some,
        ensures
            final(self).wf(),
            final(self)@ == old(self)@.insert(river@.name, stored(river@.file)),
    {
        let ghost before = *self;
        match self.position(river.name().as_str()) {
            Some(i) => {
                self.rivers.set(i, river);
                proof {
                    Self::lemma_replaced(before, *self, i as int, river);
                }
            },
            None => {
                self.rivers.push(river);
                proof {
                    Self::lemma_added(before, *self, river);
                }
            },
        }
    }

    /// Appends `message` to the river of that name, whose backing store is
    /// created first if none exists. A refused message changes nothing.
    pub fn push(&mut self, river: &str, message: &str) -> (r: Result<(), StorageError>)
        requires
            old(self).wf(),
        ensures
            final(self).wf(),
            r == push_outcome(content(old(self)@, river@).len(), encode_utf8(message@)),
            r is Ok ==> final(self)@ == pushed(old(self)@, river@, message@),
            r is Err ==> final(self)@ == old(self)@,
    {
        let ghost before = *self;
        match self.position(river) {
            Some(i) => {
                proof {
                    before.lemma_kept(i as int);
                }
                let r = self.rivers[i].push(message);
                proof {
                    Self::lemma_replaced(before, *self, i as int, self.rivers[i as int]);
                    if r is Err {
                        assert(self@ =~= before@);
                    }
                }
                r
            },
            None => {
                let mut fresh = River::new(river);
                let r = fresh.push(message);
                if r.is_ok() {
                    self.put(fresh);
                }
                r
            },
        }
    }

    /// Reads the message at `offset` of the river of that name, or the latest
    /// one where `offset` is none. Creates an empty backing store for the
    /// river first if none exists.
    pub fn peek_at(&mut self, river: &str, offset: Option<usize>) -> (r: Option<PeekResult>)
        requires
            old(self).wf(),
        ensures
            final(self).wf(),
            final(self)@ == touched(old(self)@, river@),
            peek_view(r) == peeked(content(old(self)@, river@), offset),
    {
        let ghost before = *self;
        match self.position(river) {
            Some(i) => {
                proof {
                    before.lemma_kept(i as int);
                }
                let r = self.rivers[i].peek_at(offset);
                proof {
                    Self::lemma_replaced(before, *self, i as int, self.rivers[i as int]);
                }
                r
            },
            None => {
                let mut fresh = River::new(river);
                let r = fresh.peek_at(offset);
                self.put(fresh);
                r
            },
        }
    }

    /// Removes the backing store of the river of that name. Removing an
    /// absent one is no error.
    pub fn destroy(&mut self, river: &str) -> (r: Result<(), StorageError>)
        requires
            old(self).wf(),
        ensures
            final(self).wf(),
            r is Ok,
            final(self)@ == cleared(old(self)@, river@),
    {
        let ghost before = *self;
        match self.position(river) {
            Some(i) => {
                let mut removed = self.rivers.remove(i);
                proof {
                    Self::lemma_removed(before, *self, i as int);
                }
                removed.destroy()
            },
            None => {
                proof {
                    assert(self@ =~= before@.remove(river@));
                }
                Ok(())
            },
        }
    }
}

} // verus!
