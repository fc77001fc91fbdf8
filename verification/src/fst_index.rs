use vstd::prelude::*;
use vstd::utf8::encode_utf8;
use fst::IntoStreamer;
use vstd::string::StrSliceExecFns;
use crate::request_params::{split, split_on};

verus! {

#[verifier::external_type_specification]
#[verifier::external_body]
#[verifier::reject_recursive_types(D)]
pub struct ExFstSet<D>(fst::Set<D>);

#[verifier::external_type_specification]
#[verifier::external_body]
#[verifier::reject_recursive_types(W)]
pub struct ExFstMapBuilder<W>(fst::MapBuilder<W>);

#[verifier::external_type_specification]
#[verifier::external_body]
pub struct ExFstError(fst::Error);

/// Strict lexicographic order of byte strings, the order in which a finite
/// state transducer keeps its keys.
pub open spec fn bytes_lt(a: Seq<u8>, b: Seq<u8>) -> bool
    decreases a.len(),
{
    if a.len() == 0 {
        b.len() > 0
    } else if b.len() == 0 {
        false
    } else if a[0] != b[0] {
        a[0] < b[0]
    } else {
        bytes_lt(a.drop_first(), b.drop_first())
    }
}

/// The UTF-8 bytes of each string, in order.
pub open spec fn key_bytes(keys: Seq<String>) -> Seq<Seq<u8>> {
    keys.map_values(|k: String| encode_utf8(k@))
}

/// No key comes before the one ahead of it.
pub open spec fn non_decreasing(keys: Seq<Seq<u8>>) -> bool {
    forall|i: int| 0 <= i < keys.len() - 1 ==> !bytes_lt(#[trigger] keys[i + 1], keys[i])
}

/// Every key comes after the one ahead of it.
pub open spec fn strictly_increasing(keys: Seq<Seq<u8>>) -> bool {
    forall|i: int| 0 <= i < keys.len() - 1 ==> bytes_lt(#[trigger] keys[i], keys[i + 1])
}

/// The keys that a set holds, as byte strings.
pub uninterp spec fn fst_set_keys(set: fst::Set<Vec<u8>>) -> Set<Seq<u8>>;

/// The keys of `keys` that fst's Levenshtein automaton for `query` and
/// `distance` accepts.
pub uninterp spec fn levenshtein_matches(keys: Set<Seq<u8>>, query: Seq<char>, distance: u32) -> Set<Seq<u8>>;

/// Whether fst builds a Levenshtein automaton for `query` and `distance`
/// within its fixed limit on the number of states.
pub uninterp spec fn levenshtein_fits(query: Seq<char>, distance: u32) -> bool;

/// The keys with their values that a map builder has been given so far.
pub uninterp spec fn map_builder_pairs(builder: fst::MapBuilder<Vec<u8>>) -> Seq<(Seq<u8>, u64)>;

/// The bytes of the finite state transducer that maps each key of `pairs`
/// to its value.
pub uninterp spec fn fst_map_bytes(pairs: Seq<(Seq<u8>, u64)>) -> Seq<u8>;

/// `fst::Set::from_iter` over the keys: it accepts keys that never go down in
/// byte order (a repeated key is kept once) and refuses any other sequence;
/// the set then holds exactly the keys' bytes.
#[verifier::external_body]
fn set_from_keys(keys: &Vec<String>) -> (r: Result<fst::Set<Vec<u8>>, fst::Error>)
    ensures
        r is Ok <==> non_decreasing(key_bytes(keys@)),
        r matches Ok(set) ==> fst_set_keys(set) == key_bytes(keys@).to_set(),
{
    fst::Set::from_iter(keys.iter())
}

/// Why a fuzzy search gave no answer.
#[derive(Debug, Clone, Copy, PartialEq, Eq, Structural)]
pub enum FuzzyError {
    /// The keys are not in ascending order.
    Unsorted,
    /// The Levenshtein automaton for the query would exceed fst's state limit.
    TooManyStates,
}

/// The Levenshtein distance: the fewest insertions, deletions and
/// substitutions of single characters that turn `a` into `b`.
pub open spec fn edit_distance(a: Seq<char>, b: Seq<char>) -> nat
    decreases a.len() + b.len(),
{
    if a.len() == 0 {
        b.len()
    } else if b.len() == 0 {
        a.len()
    } else {
        let delete = edit_distance(a.drop_last(), b) + 1;
        let insert = edit_distance(a, b.drop_last()) + 1;
        let replace = edit_distance(a.drop_last(), b.drop_last()) + if a.last() == b.last() {
            0nat
        } else {
            1nat
        };
        if delete <= insert && delete <= replace {
            delete
        } else if insert <= replace {
            insert
        } else {
            replace
        }
    }
}

/// `fst::automaton::Levenshtein::new(term, distance)`, then
/// `set.search(..).into_stream().into_strs()`: the keys of `set` that the
/// automaton accepts, in ascending byte order, each once. The automaton is
/// refused exactly when it would exceed fst's state limit
/// (`levenshtein_fits`); a set whose keys are all UTF-8 gives no error when
/// its keys are turned into strings. Every key the automaton accepts is
/// within `distance` character edits of `term`: each transition of its
/// automaton leads to the edit-distance row of the character read or to the
/// row of a mismatch, which is never smaller. The converse is not stated:
/// the automaton misses keys whose characters take more than one byte in
/// UTF-8 and share a leading byte with a character of `term` (the key "ö"
/// for the term "ä" at distance 1), so the keys found are named, not given
/// by the distance. The distance `u32::MAX` is left out: the automaton adds
/// one to it as a `usize`, which overflows where `usize` has 32 bits.
#[verifier::external_body]
fn search_within(set: &fst::Set<Vec<u8>>, term: &str, distance: u32) -> (r: Result<Vec<String>, FuzzyError>)
    requires
        distance < u32::MAX,
        forall|k: Seq<u8>| #[trigger] fst_set_keys(*set).contains(k) ==> exists|s: Seq<char>|
            encode_utf8(s) == k,
    ensures
        r is Ok <==> levenshtein_fits(term@, distance),
        r matches Err(e) ==> e == FuzzyError::TooManyStates,
        r matches Ok(found) ==> strictly_increasing(key_bytes(found@)),
        r matches Ok(found) ==> key_bytes(found@).to_set() == levenshtein_matches(
            fst_set_keys(*set),
            term@,
            distance,
        ),
        r matches Ok(found) ==> levenshtein_matches(fst_set_keys(*set), term@, distance).subset_of(
            fst_set_keys(*set),
        ),
        r matches Ok(found) ==> (forall|s: Seq<char>|
            #[trigger] key_bytes(found@).contains(encode_utf8(s)) ==> edit_distance(s, term@)
                <= distance),
{
    let lev = match fst::automaton::Levenshtein::new(term, distance) {
        Ok(lev) => lev,
        Err(_) => return Err(FuzzyError::TooManyStates),
    };
    match set.search(lev).into_stream().into_strs() {
        Ok(found) => Ok(found),
        Err(_) => Err(FuzzyError::TooManyStates),
    }
}


/// `fst::MapBuilder::memory()`: a builder that writes to memory and has been
/// given nothing yet.
#[verifier::external_body]
fn map_builder_memory() -> (b: fst::MapBuilder<Vec<u8>>)
    ensures
        map_builder_pairs(b) == Seq::<(Seq<u8>, u64)>::empty(),
{
    fst::MapBuilder::memory()
}

/// `fst::MapBuilder::insert`: accepts a key that comes strictly after the
/// last key given (any key when none was) and adds it with its value; refuses
/// any other key and keeps what it had.
#[verifier::external_body]
fn map_builder_insert(builder: &mut fst::MapBuilder<Vec<u8>>, key: &String, value: u64) -> (r: Result<(), fst::Error>)
    ensures
        r is Ok <==> (map_builder_pairs(*old(builder)).len() == 0 || bytes_lt(
            map_builder_pairs(*old(builder)).last().0,
            encode_utf8(key@),
        )),
        r is Ok ==> map_builder_pairs(*final(builder)) == map_builder_pairs(*old(builder)).push(
            (encode_utf8(key@), value),
        ),
        r is Err ==> map_builder_pairs(*final(builder)) == map_builder_pairs(*old(builder)),
{
    builder.insert(key, value)
}

/// `fst::MapBuilder::into_inner` on a builder that writes to memory: the bytes
/// of the transducer for the pairs it was given. Its only failures are
/// failures to write, which a vector does not have.
#[verifier::external_body]
fn map_builder_into_bytes(builder: fst::MapBuilder<Vec<u8>>) -> (r: Result<Vec<u8>, fst::Error>)
    ensures
        r is Ok,
        r matches Ok(bytes) ==> bytes@ == fst_map_bytes(map_builder_pairs(builder)),
{
    builder.into_inner()
}

/// Each key with its position in `keys` as its value.
pub open spec fn numbered(keys: Seq<Seq<u8>>) -> Seq<(Seq<u8>, u64)> {
    Seq::new(keys.len(), |i: int| (keys[i], i as u64))
}

/// Every line is paired with its own position, in the order of the lines.
pub proof fn lemma_lines_numbered(keys: Seq<Seq<u8>>)
    requires
        keys.len() <= u64::MAX,
    ensures
        numbered(keys).len() == keys.len(),
        forall|i: int|
            0 <= i < keys.len() ==> #[trigger] numbered(keys)[i].0 == keys[i] && numbered(
                keys,
            )[i].1 as int == i,
{
}

/// The bytes of the finite state transducer that maps each line to its
/// position; lines must come in strictly ascending byte order, and the
/// first one that does not is refused by its position.
pub fn build_line_map(lines: &Vec<String>) -> (r: Result<Vec<u8>, usize>)
    ensures
        r is Ok <==> strictly_increasing(key_bytes(lines@)),
        r matches Ok(bytes) ==> bytes@ == fst_map_bytes(numbered(key_bytes(lines@))),
        r matches Err(i) ==> (0 < i < lines@.len() && !bytes_lt(
            key_bytes(lines@)[i - 1],
            key_bytes(lines@)[i as int],
        ) && strictly_increasing(key_bytes(lines@).take(i as int))),
{
    let ghost kb = key_bytes(lines@);
    let mut builder = map_builder_memory();
    let mut i: usize = 0;
    while i < lines.len()
        invariant
            i <= lines@.len(),
            kb == key_bytes(lines@),
            map_builder_pairs(builder) == numbered(kb.take(i as int)),
            strictly_increasing(kb.take(i as int)),
        decreases lines@.len() - i,
    {
        let ghost before = map_builder_pairs(builder);
        match map_builder_insert(&mut builder, &lines[i], i as u64) {
            Ok(()) => {
                proof {
                    assert(numbered(kb.take(i + 1)) =~= before.push((kb[i as int], i as u64)));
                    assert forall|j: int| 0 <= j < kb.take(i + 1).len() - 1 implies bytes_lt(
                        #[trigger] kb.take(i + 1)[j],
                        kb.take(i + 1)[j + 1],
                    ) by {
                        if j < i - 1 {
                            assert(kb.take(i as int)[j] == kb[j]);
                            assert(kb.take(i as int)[j + 1] == kb[j + 1]);
                        } else {
                            assert(before.last().0 == kb[j]);
                        }
                    }
                }
                i += 1;
            },
            Err(_) => {
                proof {
                    assert(i > 0);
                    assert(before.last().0 == kb[i - 1]);
                }
                return Err(i);
            },
        }
    }
    assert(kb.take(i as int) =~= kb);
    match map_builder_into_bytes(builder) {
        Ok(bytes) => Ok(bytes),
        Err(_) => Err(0),
    }
}

/// The keys that fst's Levenshtein automaton for `term` and `max_distance`
/// accepts, in ascending byte order and each once, found with an fst set of
/// `keys`; `keys` must never go down in byte order. Every key found is
/// within `max_distance` character edits of `term`.
pub fn fuzzy_search(keys: &Vec<String>, term: &str, max_distance: u32) -> (r: Result<Vec<String>, FuzzyError>)
    requires
        max_distance < u32::MAX,
    ensures
        r == Err::<Vec<String>, _>(FuzzyError::Unsorted) <==> !non_decreasing(key_bytes(keys@)),
        r == Err::<Vec<String>, _>(FuzzyError::TooManyStates) <==> non_decreasing(
            key_bytes(keys@),
        ) && !levenshtein_fits(term@, max_distance),
        r matches Ok(found) ==> strictly_increasing(key_bytes(found@)),
        r matches Ok(found) ==> key_bytes(found@).to_set() == levenshtein_matches(
            key_bytes(keys@).to_set(),
            term@,
            max_distance,
        ),
        r matches Ok(found) ==> key_bytes(found@).to_set().subset_of(key_bytes(keys@).to_set()),
        r matches Ok(found) ==> (forall|s: Seq<char>|
            #[trigger] key_bytes(found@).contains(encode_utf8(s)) ==> edit_distance(s, term@)
                <= max_distance),
{
    let set = match set_from_keys(keys) {
        Ok(set) => set,
        Err(_) => {
            return Err(FuzzyError::Unsorted);
        },
    };
    proof {
        let kb = key_bytes(keys@);
        assert forall|k: Seq<u8>| #[trigger] fst_set_keys(set).contains(k) implies exists|
            s: Seq<char>,
        | encode_utf8(s) == k by {
            assert(kb.to_set().contains(k));
            let i = choose|i: int| 0 <= i < kb.len() && kb[i] == k;
            assert(encode_utf8(keys@[i]@) == k);
        }
    }
    search_within(&set, term, max_distance)
}


/// A line without the carriage return that ends it, if one does.
pub open spec fn strip_cr(line: Seq<char>) -> Seq<char> {
    if line.len() > 0 && line.last() == '\r' {
        line.drop_last()
    } else {
        line
    }
}

/// The lines of `text` as `str::lines` gives them: the pieces between
/// newlines, each ended line without a carriage return before its newline,
/// and no line after a final newline. The last line, which no newline ends,
/// keeps what it holds.
pub open spec fn lines_of(text: Seq<char>) -> Seq<Seq<char>> {
    let pieces = split(text, seq!['\n']);
    let ended = pieces.drop_last().map_values(|p: Seq<char>| strip_cr(p));
    if pieces.last().len() == 0 {
        ended
    } else {
        ended.push(pieces.last())
    }
}

/// The lines of `text`.
pub fn text_lines(text: &str) -> (lines: Vec<String>)
    ensures
        lines@.map_values(|l: String| l@) == lines_of(text@),
{
    let newline = vec!['\n'];
    assert(newline@ =~= seq!['\n']);
    let pieces = split_on(text, &newline);
    let ghost pv = pieces@.map_values(|p: String| p@);
    assert(pv == split(text@, seq!['\n']));
    proof {
        reveal_with_fuel(split, 2);
    }
    assert(pv.len() > 0);
    let n = pieces.len();
    let mut lines: Vec<String> = Vec::new();
    let mut i: usize = 0;
    while i + 1 < n
        invariant
            n == pieces@.len(),
            n > 0,
            pv == pieces@.map_values(|p: String| p@),
            i + 1 <= n,
            lines@.map_values(|l: String| l@) == pv.take(i as int).map_values(
                |p: Seq<char>| strip_cr(p),
            ),
        decreases n - i,
    {
        let piece = pieces[i].as_str();
        let len = piece.unicode_len();
        let line = if len > 0 && piece.get_char(len - 1) == '\r' {
            piece.substring_char(0, len - 1).to_owned()
        } else {
            piece.to_owned()
        };
        assert(pv[i as int] == pieces@[i as int]@);
        assert(line@ == strip_cr(pv[i as int])) by {
            if len > 0 && pv[i as int].last() == '\r' {
                assert(pv[i as int].drop_last() =~= pv[i as int].subrange(0, len - 1));
            }
        }
        lines.push(line);
        assert(pv.take(i + 1).map_values(|p: Seq<char>| strip_cr(p)) =~= pv.take(
            i as int,
        ).map_values(|p: Seq<char>| strip_cr(p)).push(strip_cr(pv[i as int])));
        assert(lines@.map_values(|l: String| l@) =~= lines@.drop_last().map_values(
            |l: String| l@,
        ).push(line@));
        i += 1;
    }
    assert(pv.take(i as int) =~= pv.drop_last());
    let last = pieces[n - 1].as_str();
    assert(pv.last() == last@);
    if last.unicode_len() > 0 {
        lines.push(last.to_owned());
        assert(lines@.map_values(|l: String| l@) =~= lines@.drop_last().map_values(
            |l: String| l@,
        ).push(last@));
    }
    lines
}

} // verus!
