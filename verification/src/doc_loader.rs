use vstd::prelude::*;
use byteorder::ByteOrder;

verus! {

/// A loaded index of 64-bit values, kept under the path it was loaded from.
#[derive(Debug)]
pub struct IndexEntry {
    pub path: String,
    pub values: Vec<u64>,
}

/// The map from path to values that `entries` holds; a later entry for a
/// path wins over an earlier one.
pub open spec fn index_map(entries: Seq<IndexEntry>) -> Map<Seq<char>, Seq<u64>>
    decreases entries.len(),
{
    if entries.len() == 0 {
        Map::empty()
    } else {
        index_map(entries.drop_last()).insert(entries.last().path@, entries.last().values@)
    }
}

/// No two entries share a path.
pub open spec fn distinct_paths(entries: Seq<IndexEntry>) -> bool {
    forall|i: int, j: int|
        0 <= i < j < entries.len() ==> #[trigger] entries[i].path@ != #[trigger] entries[j].path@
}

/// The index cache of a search database: the 64-bit indices loaded so far,
/// by path.
#[derive(Debug)]
pub struct Persistence {
    index_64: Vec<IndexEntry>,
}

proof fn lemma_index_map_keys(entries: Seq<IndexEntry>, k: Seq<char>)
    ensures
        index_map(entries).contains_key(k) <==> exists|i: int|
            0 <= i < entries.len() && #[trigger] entries[i].path@ == k,
    decreases entries.len(),
{
    if entries.len() > 0 {
        let init = entries.drop_last();
        lemma_index_map_keys(init, k);
        if index_map(init).contains_key(k) {
            let i = choose|i: int| 0 <= i < init.len() && #[trigger] init[i].path@ == k;
            assert(entries[i] == init[i]);
        }
        if exists|i: int| 0 <= i < entries.len() && #[trigger] entries[i].path@ == k {
            let i = choose|i: int| 0 <= i < entries.len() && #[trigger] entries[i].path@ == k;
            if i < entries.len() - 1 {
                assert(init[i] == entries[i]);
            }
        }
    }
}

proof fn lemma_index_map_value(entries: Seq<IndexEntry>, i: int)
    requires
        distinct_paths(entries),
        0 <= i < entries.len(),
    ensures
        index_map(entries).contains_key(entries[i].path@),
        index_map(entries)[entries[i].path@] == entries[i].values@,
    decreases entries.len(),
{
    if i < entries.len() - 1 {
        let init = entries.drop_last();
        assert(init[i] == entries[i]);
        assert(distinct_paths(init)) by {
            assert forall|a: int, b: int| 0 <= a < b < init.len() implies #[trigger] init[a].path@
                != #[trigger] init[b].path@ by {
                assert(init[a] == entries[a] && init[b] == entries[b]);
            }
        }
        lemma_index_map_value(init, i);
    }
}

proof fn lemma_index_map_update(entries: Seq<IndexEntry>, i: int, e: IndexEntry)
    requires
        distinct_paths(entries),
        0 <= i < entries.len(),
        entries[i].path@ == e.path@,
    ensures
        index_map(entries.update(i, e)) == index_map(entries).insert(e.path@, e.values@),
    decreases entries.len(),
{
    let updated = entries.update(i, e);
    let init = entries.drop_last();
    if i == entries.len() - 1 {
        assert(updated.drop_last() =~= init);
        assert forall|k: Seq<char>| #[trigger] index_map(init).contains_key(k) implies k
            != e.path@ by {
            lemma_index_map_keys(init, k);
            let j = choose|j: int| 0 <= j < init.len() && #[trigger] init[j].path@ == k;
            assert(init[j] == entries[j]);
        }
        assert(index_map(updated) =~= index_map(entries).insert(e.path@, e.values@));
    } else {
        assert(updated.drop_last() =~= init.update(i, e));
        assert(init[i] == entries[i]);
        assert(distinct_paths(init)) by {
            assert forall|a: int, b: int| 0 <= a < b < init.len() implies #[trigger] init[a].path@
                != #[trigger] init[b].path@ by {
                assert(init[a] == entries[a] && init[b] == entries[b]);
            }
        }
        lemma_index_map_update(init, i, e);
        assert(entries.last().path@ != e.path@) by {
            assert(entries[entries.len() - 1] == entries.last());
        }
        assert(index_map(updated) =~= index_map(entries).insert(e.path@, e.values@));
    }
}

impl View for Persistence {
    type V = Map<Seq<char>, Seq<u64>>;

    /// The loaded indices, by path.
    closed spec fn view(&self) -> Map<Seq<char>, Seq<u64>> {
        index_map(self.index_64@)
    }
}

impl Persistence {
    #[verifier::type_invariant]
    spec fn paths_are_distinct(self) -> bool {
        distinct_paths(self.index_64@)
    }

    /// A cache with nothing loaded.
    pub fn new() -> (r: Persistence)
        ensures
            r@ == Map::<Seq<char>, Seq<u64>>::empty(),
    {
        let r = Persistence { index_64: Vec::new() };
        assert(index_map(r.index_64@) =~= Map::<Seq<char>, Seq<u64>>::empty());
        r
    }

    fn position(&self, path: &String) -> (r: Option<usize>)
        ensures
            match r {
                Some(i) => i < self.index_64@.len() && self.index_64@[i as int].path@ == path@,
                None => forall|i: int|
                    0 <= i < self.index_64@.len() ==> #[trigger] self.index_64@[i].path@ != path@,
            },
    {
        let mut i: usize = 0;
        while i < self.index_64.len()
            invariant
                i <= self.index_64@.len(),
                forall|j: int| 0 <= j < i ==> #[trigger] self.index_64@[j].path@ != path@,
            decreases self.index_64@.len() - i,
        {
            if self.index_64[i].path == *path {
                return Some(i);
            }
            i += 1;
        }
        None
    }

    /// Keeps `values` as the index loaded from `path`, in place of any earlier one.
    pub fn insert_index_64(&mut self, path: String, values: Vec<u64>)
        ensures
            final(self)@ == old(self)@.insert(path@, values@),
    {
        proof {
            use_type_invariant(&*self);
        }
        let ghost old_entries = self.index_64@;
        let entry = IndexEntry { path, values };
        match self.position(&entry.path) {
            Some(i) => {
                let mut entries: Vec<IndexEntry> = Vec::new();
                std::mem::swap(&mut entries, &mut self.index_64);
                proof {
                    lemma_index_map_update(old_entries, i as int, entry);
                }
                entries.set(i, entry);
                assert(entries@ =~= old_entries.update(i as int, entry));
                assert(distinct_paths(entries@)) by {
                    assert forall|a: int, b: int|
                        0 <= a < b < entries@.len() implies #[trigger] entries@[a].path@
                        != #[trigger] entries@[b].path@ by {
                        assert(old_entries[a].path@ != old_entries[b].path@);
                    }
                }
                self.index_64 = entries;
            },
            None => {
                let mut entries: Vec<IndexEntry> = Vec::new();
                std::mem::swap(&mut entries, &mut self.index_64);
                entries.push(entry);
                assert(entries@.drop_last() =~= old_entries);
                assert(distinct_paths(entries@)) by {
                    assert forall|a: int, b: int|
                        0 <= a < b < entries@.len() implies #[trigger] entries@[a].path@
                        != #[trigger] entries@[b].path@ by {
                        if b < old_entries.len() {
                            assert(old_entries[a].path@ != old_entries[b].path@);
                        } else {
                            assert(entries@[a] == old_entries[a]);
                        }
                    }
                }
                self.index_64 = entries;
            },
        }
    }

    /// The index loaded from `path`, if one was.
    pub fn get_index_64(&self, path: &String) -> (r: Option<&Vec<u64>>)
        ensures
            match r {
                Some(v) => self@.contains_key(path@) && v@ == self@[path@],
                None => !self@.contains_key(path@),
            },
    {
        proof {
            use_type_invariant(self);
            lemma_index_map_keys(self.index_64@, path@);
        }
        match self.position(path) {
            Some(i) => {
                proof {
                    lemma_index_map_value(self.index_64@, i as int);
                }
                Some(&self.index_64[i].values)
            },
            None => None,
        }
    }
}


/// The path under which the document offsets are loaded.
pub open spec fn offsets_path() -> Seq<char> {
    seq!['d', 'a', 't', 'a', '.', 'o', 'f', 'f', 's', 'e', 't', 's']
}

fn offsets_key() -> (r: String)
    ensures
        r@ == offsets_path(),
{
    let r = "data.offsets".to_owned();
    proof {
        reveal_strlit("data.offsets");
        assert(r@ =~= offsets_path());
    }
    r
}

/// Why a document's byte range cannot be read from the offsets.
#[derive(Debug, Clone, Copy, PartialEq, Eq, Structural)]
pub enum DocError {
    /// The document offsets have not been loaded.
    NotLoaded,
    /// There is no offset for the document or for the one after it.
    OutOfRange,
    /// The document's end offset is before its start offset.
    Inverted,
}

/// The byte range of document `pos` in the document store: from its own
/// offset to the next document's offset.
pub open spec fn doc_bounds_of(cache: Map<Seq<char>, Seq<u64>>, pos: int) -> Result<
    (u64, u64),
    DocError,
> {
    if !cache.contains_key(offsets_path()) {
        Err(DocError::NotLoaded)
    } else {
        let offsets = cache[offsets_path()];
        if pos + 1 >= offsets.len() {
            Err(DocError::OutOfRange)
        } else if offsets[pos] > offsets[pos + 1] {
            Err(DocError::Inverted)
        } else {
            Ok((offsets[pos], offsets[pos + 1]))
        }
    }
}

/// Reads documents out of the document store by their offsets.
#[derive(Debug)]
pub struct DocLoader {}

impl DocLoader {
    /// Keeps `offsets`, the start of every document in the document store
    /// (and the end of the last), as the index `data.offsets`.
    pub fn load(persistence: &mut Persistence, offsets: Vec<u64>)
        ensures
            final(persistence)@ == old(persistence)@.insert(offsets_path(), offsets@),
    {
        persistence.insert_index_64(offsets_key(), offsets);
    }

    /// The byte range `start .. end` that document `pos` takes in the
    /// document store.
    pub fn doc_bounds(persistence: &Persistence, pos: usize) -> (r: Result<(u64, u64), DocError>)
        ensures
            r == doc_bounds_of(persistence@, pos as int),
    {
        let key = offsets_key();
        match persistence.get_index_64(&key) {
            None => Err(DocError::NotLoaded),
            Some(offsets) => {
                if pos >= offsets.len() || offsets.len() - pos < 2 {
                    Err(DocError::OutOfRange)
                } else if offsets[pos] > offsets[pos + 1] {
                    Err(DocError::Inverted)
                } else {
                    Ok((offsets[pos], offsets[pos + 1]))
                }
            },
        }
    }
}


/// Once offsets are loaded, the byte range of document `pos` is read from
/// them: its own offset and the next one, whatever was loaded before.
pub proof fn lemma_bounds_after_load(
    cache: Map<Seq<char>, Seq<u64>>,
    offsets: Seq<u64>,
    pos: int,
)
    requires
        0 <= pos,
        pos + 1 < offsets.len(),
        offsets[pos] <= offsets[pos + 1],
    ensures
        doc_bounds_of(cache.insert(offsets_path(), offsets), pos) == Ok::<_, DocError>(
            (offsets[pos], offsets[pos + 1]),
        ),
{
}


/// The value of bytes read least significant first.
pub open spec fn le_value(b: Seq<u8>) -> nat
    decreases b.len(),
{
    if b.len() == 0 {
        0
    } else {
        (b[0] as nat) + 256 * le_value(b.drop_first())
    }
}

/// `byteorder::LittleEndian::read_u64` on the eight bytes at `offset`: their
/// little-endian value.
#[verifier::external_body]
fn read_u64_le(bytes: &[u8], offset: usize) -> (r: u64)
    requires
        offset + 8 <= bytes@.len(),
    ensures
        r == le_value(bytes@.subrange(offset as int, offset + 8)),
{
    byteorder::LittleEndian::read_u64(&bytes[offset..])
}

/// Which byte range is refused, and why: without loaded offsets, for a
/// document that has no offset or no next offset, and for one whose next
/// offset comes before its own.
pub proof fn lemma_bounds_refused(cache: Map<Seq<char>, Seq<u64>>, pos: int)
    requires
        0 <= pos,
    ensures
        !cache.contains_key(offsets_path()) ==> doc_bounds_of(cache, pos) == Err::<(u64, u64), _>(
            DocError::NotLoaded,
        ),
        cache.contains_key(offsets_path()) && pos + 1 >= cache[offsets_path()].len()
            ==> doc_bounds_of(cache, pos) == Err::<(u64, u64), _>(DocError::OutOfRange),
        cache.contains_key(offsets_path()) && pos + 1 < cache[offsets_path()].len()
            && cache[offsets_path()][pos + 1] < cache[offsets_path()][pos] ==> doc_bounds_of(
            cache,
            pos,
        ) == Err::<(u64, u64), _>(DocError::Inverted),
        doc_bounds_of(cache, pos) matches Ok((start, end)) ==> start <= end && start
            == cache[offsets_path()][pos] && end == cache[offsets_path()][pos + 1],
{
}

/// An index read back after it was kept under a path is the index kept,
/// and keeping it leaves the indices under other paths as they were.
pub proof fn lemma_get_after_insert(
    cache: Map<Seq<char>, Seq<u64>>,
    path: Seq<char>,
    values: Seq<u64>,
    other: Seq<char>,
)
    requires
        other != path,
    ensures
        cache.insert(path, values).contains_key(path),
        cache.insert(path, values)[path] == values,
        cache.insert(path, values).contains_key(other) == cache.contains_key(other),
        cache.contains_key(other) ==> cache.insert(path, values)[other] == cache[other],
{
}

/// The offsets stored in an offsets file: one little-endian `u64` per eight
/// bytes; a file whose length is not a multiple of eight holds none.
pub fn decode_offsets(bytes: &[u8]) -> (r: Option<Vec<u64>>)
    ensures
        bytes@.len() % 8 != 0 ==> r is None,
        bytes@.len() % 8 == 0 ==> r is Some,
        r matches Some(v) ==> v@.len() * 8 == bytes@.len() && forall|i: int|
            0 <= i < v@.len() ==> #[trigger] v@[i] == le_value(bytes@.subrange(8 * i, 8 * i + 8)),
{
    if bytes.len() % 8 != 0 {
        return None;
    }
    let len = bytes.len();
    let n = len / 8;
    let mut v: Vec<u64> = Vec::new();
    let mut i: usize = 0;
    while i < n
        invariant
            len == bytes@.len(),
            n * 8 == len,
            i <= n,
            v@.len() == i,
            forall|j: int|
                0 <= j < i ==> #[trigger] v@[j] == le_value(bytes@.subrange(8 * j, 8 * j + 8)),
        decreases n - i,
    {
        v.push(read_u64_le(bytes, 8 * i));
        i += 1;
    }
    Some(v)
}

} // verus!
