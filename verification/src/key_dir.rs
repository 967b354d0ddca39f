//! The in-memory directory: for every known key, where its latest record lies.

use vstd::hash_map::StringHashMap;
use vstd::prelude::*;

verus! {

/// Where the latest record of a key lies and how long its value is.
#[derive(Debug, Clone, Copy, PartialEq, Eq, Structural)]
pub struct KeyDirEntry {
    /// The data file that holds the record.
    pub file_id: u32,
    /// The length of the value in bytes.
    pub value_sz: u64,
    /// The position of the record's first byte in its file.
    pub value_pos: u64,
    /// When the record was written, in seconds since the Unix epoch.
    pub timestamp: u64,
}

/// The texts of a list of strings.
pub open spec fn texts(strings: Seq<String>) -> Seq<Seq<char>> {
    strings.map_values(|s: String| s@)
}

struct Slot {
    key: String,
    entry: KeyDirEntry,
}

/// A map from keys to entries whose keys can be listed.
///
/// The entries stand side by side in `slots`; `index` says in which slot a key
/// stands. A removed slot is filled with the last one.
pub struct KeyDir {
    slots: Vec<Slot>,
    index: StringHashMap<usize>,
}

impl View for KeyDir {
    type V = Map<Seq<char>, KeyDirEntry>;

    closed spec fn view(&self) -> Map<Seq<char>, KeyDirEntry> {
        self.index@.map_values(|i: usize| self.slots@[i as int].entry)
    }
}

impl KeyDir {
    /// Every slot is found under its own key, and every indexed key stands in
    /// the slot that it is indexed to.
    #[verifier::type_invariant]
    closed spec fn indexed(self) -> bool {
        &&& forall|k: Seq<char>| #[trigger]
            self.index@.contains_key(k) ==> {
                &&& self.index@[k] < self.slots@.len()
                &&& self.slots@[self.index@[k] as int].key@ == k
            }
        &&& forall|i: int|
            0 <= i < self.slots@.len() ==> {
                &&& self.index@.contains_key(#[trigger] self.slots@[i].key@)
                &&& self.index@[self.slots@[i].key@] == i
            }
    }

    pub fn new() -> (dir: Self)
        ensures
            dir@ == Map::<Seq<char>, KeyDirEntry>::empty(),
    {
        let dir = KeyDir { slots: Vec::new(), index: StringHashMap::new() };
        assert(dir@ =~= Map::empty());
        dir
    }

    /// Looks a key up.
    pub fn get(&self, key: &str) -> (entry: Option<KeyDirEntry>)
        ensures
            entry == (if self@.contains_key(key@) {
                Some(self@[key@])
            } else {
                None
            }),
    {
        proof {
            use_type_invariant(self);
        }
        match self.index.get(key) {
            Some(i) => Some(self.slots[*i].entry),
            None => None,
        }
    }

    /// Makes `entry` the entry of `key`, in place of any earlier one.
    pub fn insert(&mut self, key: &str, entry: KeyDirEntry)
        ensures
            final(self)@ == old(self)@.insert(key@, entry),
    {
        proof {
            use_type_invariant(&*self);
        }
        let mut taken = KeyDir::new();
        std::mem::swap(self, &mut taken);
        let KeyDir { mut slots, mut index } = taken;
        let found: Option<usize> = match index.get(key) {
            Some(i) => Some(*i),
            None => None,
        };
        match found {
            Some(i) => {
                slots[i].entry = entry;
            },
            None => {
                index.insert(key.to_owned(), slots.len());
                slots.push(Slot { key: key.to_owned(), entry });
            },
        }
        *self = KeyDir { slots, index };
        assert(self@ =~= old(self)@.insert(key@, entry));
    }

    /// Forgets `key`, if it is known.
    pub fn remove(&mut self, key: &str)
        ensures
            final(self)@ == old(self)@.remove(key@),
    {
        proof {
            use_type_invariant(&*self);
        }
        let mut taken = KeyDir::new();
        std::mem::swap(self, &mut taken);
        let KeyDir { mut slots, mut index } = taken;
        let found: Option<usize> = match index.get(key) {
            Some(i) => Some(*i),
            None => None,
        };
        if let Some(i) = found {
            index.remove(key);
            slots.swap_remove(i);
            if i < slots.len() {
                index.insert(slots[i].key.clone(), i);
            }
        }
        *self = KeyDir { slots, index };
        assert(self@ =~= old(self)@.remove(key@));
    }

    /// All known keys, each once.
    pub fn keys(&self) -> (keys: Vec<String>)
        ensures
            texts(keys@).no_duplicates(),
            texts(keys@).to_set() == self@.dom(),
    {
        proof {
            use_type_invariant(self);
        }
        let mut keys: Vec<String> = Vec::new();
        let mut i: usize = 0;
        while i < self.slots.len()
            invariant
                i <= self.slots@.len(),
                keys@.len() == i,
                forall|j: int| 0 <= j < i ==> #[trigger] keys@[j]@ == self.slots@[j].key@,
            decreases self.slots@.len() - i,
        {
            keys.push(self.slots[i].key.clone());
            i = i + 1;
        }
        proof {
            let listed = texts(keys@);
            assert forall|k: Seq<char>| self@.contains_key(k) implies listed.contains(k) by {
                assert(listed[self.index@[k] as int] == k);
            }
            assert(listed.to_set() =~= self@.dom());
        }
        keys
    }
}

} // verus!
