//! The two-way table between the tokens of one text and their ids.
use crate::text::first_occurrences;
use bimap::BiHashMap;
use std::collections::hash_map::RandomState;
use vstd::prelude::*;

verus! {

/// The two-way hash map of the crate `bimap`, taken as an opaque value.
#[verifier::external_type_specification]
#[verifier::external_body]
#[verifier::reject_recursive_types(L)]
#[verifier::reject_recursive_types(R)]
#[verifier::reject_recursive_types(LS)]
#[verifier::reject_recursive_types(RS)]
pub struct ExBiHashMap<L, R, LS, RS>(BiHashMap<L, R, LS, RS>);

/// The pairs that a two-way map holds, read from left to right.
pub uninterp spec fn pairs_of(map: BiHashMap<String, usize, RandomState, RandomState>) -> Map<
    Seq<char>,
    usize,
>;

/// Calls `BiHashMap::new`: the new map holds no pair.
#[verifier::external_body]
fn pairs_new() -> (fresh: BiHashMap<String, usize, RandomState, RandomState>)
    ensures
        pairs_of(fresh).dom() == Set::<Seq<char>>::empty(),
{
    BiHashMap::new()
}

/// Calls `BiHashMap::insert_no_overwrite`: the pair is added, and `true`
/// returned, where neither its left nor its right value is in the map yet;
/// else the map stays as it is.
#[verifier::external_body]
fn pairs_insert(
    map: &mut BiHashMap<String, usize, RandomState, RandomState>,
    left: String,
    right: usize,
) -> (added: bool)
    ensures
        added == (!pairs_of(*old(map)).dom().contains(left@) && !pairs_of(
            *old(map),
        ).contains_value(right)),
        pairs_of(*final(map)) == if added {
            pairs_of(*old(map)).insert(left@, right)
        } else {
            pairs_of(*old(map))
        },
{
    map.insert_no_overwrite(left, right).is_ok()
}

/// Calls `BiHashMap::get_by_left`: the right value paired with a left value,
/// if the map holds that left value.
#[verifier::external_body]
fn pairs_get_by_left(
    map: &BiHashMap<String, usize, RandomState, RandomState>,
    left: &str,
) -> (right: Option<usize>)
    ensures
        right == if pairs_of(*map).dom().contains(left@) {
            Some(pairs_of(*map)[left@])
        } else {
            None
        },
{
    map.get_by_left(left).copied()
}

/// Calls `BiHashMap::get_by_right`: a left value paired with the right value,
/// if the map holds that right value.
#[verifier::external_body]
fn pairs_get_by_right<'a>(
    map: &'a BiHashMap<String, usize, RandomState, RandomState>,
    right: usize,
) -> (left: Option<&'a String>)
    ensures
        match left {
            Some(l) => pairs_of(*map).dom().contains(l@) && pairs_of(*map)[l@] == right,
            None => !pairs_of(*map).contains_value(right),
        },
{
    map.get_by_right(&right)
}

/// Calls `BiHashMap::len`: the number of pairs.
#[verifier::external_body]
fn pairs_len(map: &BiHashMap<String, usize, RandomState, RandomState>) -> (len: usize)
    ensures
        len == pairs_of(*map).dom().len(),
{
    map.len()
}

/// The id of a token in a vocabulary: the place where it stands.
pub open spec fn lookup(vocabulary: Seq<Seq<char>>, token: Seq<char>) -> Option<usize> {
    if vocabulary.contains(token) {
        Some(vocabulary.index_of(token) as usize)
    } else {
        None
    }
}

/// The token that an id stands for in a vocabulary.
pub open spec fn resolve(vocabulary: Seq<Seq<char>>, id: usize) -> Option<Seq<char>> {
    if id < vocabulary.len() {
        Some(vocabulary[id as int])
    } else {
        None
    }
}

/// In a vocabulary without repetitions, ids and tokens answer each other: the
/// token of an id has that id, the id of a token stands for that token, and no
/// two tokens share an id.
pub proof fn lemma_bijection(vocabulary: Seq<Seq<char>>)
    requires
        vocabulary.no_duplicates(),
        vocabulary.len() <= usize::MAX,
    ensures
        forall|id: usize|
            id < vocabulary.len() ==> lookup(vocabulary, #[trigger] resolve(vocabulary, id)->0)
                == Some(id),
        forall|token: Seq<char>| #[trigger]
            vocabulary.contains(token) ==> resolve(vocabulary, lookup(vocabulary, token)->0)
                == Some(token),
        forall|a: Seq<char>, b: Seq<char>|
            vocabulary.contains(a) && #[trigger] lookup(vocabulary, a) == #[trigger] lookup(
                vocabulary,
                b,
            ) ==> a == b,
{
    assert forall|id: usize| id < vocabulary.len() implies lookup(
        vocabulary,
        #[trigger] resolve(vocabulary, id)->0,
    ) == Some(id) by {
        let token = vocabulary[id as int];
        assert(vocabulary.contains(token));
    }
}

/// The ids of a run of tokens, each looked up in the vocabulary.
pub open spec fn ids_of(vocabulary: Seq<Seq<char>>, words: Seq<Seq<char>>) -> Seq<usize> {
    words.map_values(|w: Seq<char>| vocabulary.index_of(w) as usize)
}

/// The map that pairs each token of a vocabulary with its place.
pub open spec fn places(vocabulary: Seq<Seq<char>>) -> Map<Seq<char>, usize> {
    Map::new(
        |token: Seq<char>| vocabulary.contains(token),
        |token: Seq<char>| vocabulary.index_of(token) as usize,
    )
}

/// A bijection between the tokens of one text and the ids `0, 1, 2, ...`. Its
/// view is the vocabulary: the tokens in the order of their ids.
pub struct Dictionary {
    pairs: BiHashMap<String, usize, RandomState, RandomState>,
    vocabulary: Ghost<Seq<Seq<char>>>,
}

impl View for Dictionary {
    type V = Seq<Seq<char>>;

    closed spec fn view(&self) -> Seq<Seq<char>> {
        self.vocabulary@
    }
}

impl Dictionary {
    /// The map pairs each token of the vocabulary with its place, and the
    /// vocabulary holds no token twice.
    pub closed spec fn wf(&self) -> bool {
        &&& self@.no_duplicates()
        &&& self@.len() <= usize::MAX
        &&& pairs_of(self.pairs) == places(self@)
    }

    /// The vocabulary of a well-formed dictionary holds no token twice.
    pub proof fn lemma_wf(&self)
        requires
            self.wf(),
        ensures
            self@.no_duplicates(),
            self@.len() <= usize::MAX,
    {
    }

    /// The dictionary is a bijection: the token of every id in range has that
    /// id, the id of every token stands for that token, and no two tokens share
    /// an id.
    pub proof fn lemma_bijection(&self)
        requires
            self.wf(),
        ensures
            forall|id: usize|
                id < self@.len() ==> lookup(self@, #[trigger] resolve(self@, id)->0) == Some(id),
            forall|token: Seq<char>| #[trigger]
                self@.contains(token) ==> resolve(self@, lookup(self@, token)->0) == Some(token),
            forall|a: Seq<char>, b: Seq<char>|
                self@.contains(a) && #[trigger] lookup(self@, a) == #[trigger] lookup(self@, b)
                    ==> a == b,
    {
        lemma_bijection(self@);
    }

    /// A dictionary without tokens.
    pub fn new() -> (dictionary: Dictionary)
        ensures
            dictionary.wf(),
            dictionary@ == Seq::<Seq<char>>::empty(),
    {
        let dictionary = Dictionary { pairs: pairs_new(), vocabulary: Ghost(Seq::empty()) };
        assert(places(dictionary@).dom() =~= Set::<Seq<char>>::empty());
        assert(pairs_of(dictionary.pairs) =~= places(dictionary@));
        dictionary
    }

    /// The dictionary of a stream of tokens: each token gets the next free id
    /// when the stream first shows it.
    pub fn from_words(words: &Vec<String>) -> (dictionary: Dictionary)
        ensures
            dictionary.wf(),
            dictionary@ == first_occurrences(words.deep_view()),
    {
        let mut dictionary = Dictionary::new();
        let mut i: usize = 0;
        assert(words.deep_view().take(0) =~= Seq::empty());
        while i < words.len()
            invariant
                i <= words.len(),
                dictionary.wf(),
                dictionary@ == first_occurrences(words.deep_view().take(i as int)),
            decreases words.len() - i,
        {
            let ghost all = words.deep_view();
            proof {
                assert(all.take(i + 1).drop_last() =~= all.take(i as int));
                assert(all.take(i + 1).last() == words@[i as int]@);
                crate::text::lemma_first_occurrences(all.take(i as int));
            }
            dictionary.intern(words[i].clone());
            i += 1;
        }
        assert(words.deep_view().take(i as int) =~= words.deep_view());
        dictionary
    }

    /// Gives the token an id unless it has one, and returns its id.
    fn intern(&mut self, token: String) -> (id: usize)
        requires
            old(self).wf(),
            old(self)@.contains(token@) || old(self)@.len() < usize::MAX,
        ensures
            final(self).wf(),
            final(self)@ == if old(self)@.contains(token@) {
                old(self)@
            } else {
                old(self)@.push(token@)
            },
            lookup(final(self)@, token@) == Some(id),
    {
        match pairs_get_by_left(&self.pairs, token.as_str()) {
            Some(id) => id,
            None => {
                let ghost before = self@;
                let ghost word = token@;
                let id = self.len();
                proof {
                    if pairs_of(self.pairs).contains_value(id) {
                        let t = choose|t: Seq<char>| #[trigger]
                            pairs_of(self.pairs).dom().contains(t) && pairs_of(self.pairs)[t] == id;
                        assert(before.contains(t));
                    }
                }
                let added = pairs_insert(&mut self.pairs, token, id);
                self.vocabulary = Ghost(before.push(word));
                proof {
                    let after = before.push(word);
                    assert(after[id as int] == word);
                    assert forall|t: Seq<char>| before.contains(t) implies after.contains(t)
                        && after.index_of(t) == before.index_of(t) by {
                        let k = before.index_of(t);
                        assert(after[k] == t);
                    }
                    assert forall|t: Seq<char>| after.contains(t) implies before.contains(t) || t
                        == word by {
                        let k = after.index_of(t);
                        if k < before.len() {
                            assert(before[k] == t);
                        }
                    }
                    assert(pairs_of(self.pairs) =~= places(after));
                }
                id
            },
        }
    }

    /// The number of tokens.
    pub fn len(&self) -> (len: usize)
        requires
            self.wf(),
        ensures
            len == self@.len(),
    {
        proof {
            self@.unique_seq_to_set();
            assert(pairs_of(self.pairs).dom() =~= self@.to_set());
        }
        pairs_len(&self.pairs)
    }

    /// The id of a token, if the dictionary holds the token.
    pub fn id_of(&self, token: &str) -> (id: Option<usize>)
        requires
            self.wf(),
        ensures
            id == lookup(self@, token@),
    {
        pairs_get_by_left(&self.pairs, token)
    }

    /// The ids of a run of tokens, or the place of the first token that the
    /// dictionary does not hold.
    pub fn ids_of(&self, words: &Vec<String>) -> (ids: Result<Vec<usize>, usize>)
        requires
            self.wf(),
        ensures
            match ids {
                Ok(ids) => {
                    &&& forall|j: int|
                        0 <= j < words.len() ==> self@.contains(#[trigger] words.deep_view()[j])
                    &&& ids@ == ids_of(self@, words.deep_view())
                },
                Err(gap) => {
                    &&& gap < words.len()
                    &&& !self@.contains(words.deep_view()[gap as int])
                    &&& forall|j: int|
                        0 <= j < gap ==> self@.contains(#[trigger] words.deep_view()[j])
                },
            },
    {
        let mut ids: Vec<usize> = Vec::new();
        let mut j: usize = 0;
        while j < words.len()
            invariant
                j <= words.len(),
                self.wf(),
                forall|k: int| 0 <= k < j ==> self@.contains(#[trigger] words.deep_view()[k]),
                ids@ =~= ids_of(self@, words.deep_view().take(j as int)),
            decreases words.len() - j,
        {
            match self.id_of(words[j].as_str()) {
                Some(id) => {
                    ids.push(id);
                    assert(words.deep_view().take(j + 1) =~= words.deep_view().take(j as int).push(
                        words@[j as int]@,
                    ));
                },
                None => {
                    return Err(j);
                },
            }
            j += 1;
        }
        assert(words.deep_view().take(j as int) =~= words.deep_view());
        Ok(ids)
    }

    /// The token that an id stands for, if the id is in range.
    pub fn token_of(&self, id: usize) -> (token: Option<&String>)
        requires
            self.wf(),
        ensures
            match token {
                Some(t) => resolve(self@, id) == Some(t@),
                None => resolve(self@, id) is None,
            },
    {
        let token = pairs_get_by_right(&self.pairs, id);
        proof {
            if id < self@.len() {
                let t = self@[id as int];
                assert(self@.contains(t));
                assert(pairs_of(self.pairs).dom().contains(t) && pairs_of(self.pairs)[t] == id);
            }
        }
        token
    }
}

} // verus!
