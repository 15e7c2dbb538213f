//! The vocabulary of a language model: token ids and the bytes of each token,
//! grouped by first byte for probing.
use vstd::prelude::*;

verus! {

/// Why a vocabulary was refused.
#[derive(Clone, Copy, Debug, PartialEq, Eq, Structural)]
pub enum CreateVocabularyError {
    /// More token ids than 32 bits can address.
    TooManyTokens,
}

/// Token ids `0..size()`, each either unknown or the bytes of its token.
#[derive(Clone, Debug)]
pub struct Vocabulary {
    id_to_token: Vec<Option<Vec<u8>>>,
    first_byte_to_token_ids: Vec<Vec<u32>>,
    empty_token_ids: Vec<u32>,
}

pub open spec fn token_view(t: Option<Vec<u8>>) -> Option<Seq<u8>> {
    match t {
        Some(v) => Some(v@),
        None => None,
    }
}

impl Vocabulary {
    pub closed spec fn spec_tokens(&self) -> Seq<Option<Vec<u8>>> {
        self.id_to_token@
    }

    pub closed spec fn spec_group(&self, b: int) -> Seq<u32> {
        self.first_byte_to_token_ids@[b]@
    }

    pub closed spec fn group_count(&self) -> nat {
        self.first_byte_to_token_ids@.len()
    }

    pub closed spec fn spec_empty_ids(&self) -> Seq<u32> {
        self.empty_token_ids@
    }

    pub open spec fn size(&self) -> nat {
        self.spec_tokens().len()
    }

    /// The bytes of token `id`, if the id is known.
    pub open spec fn token(&self, id: int) -> Option<Seq<u8>> {
        if 0 <= id < self.size() {
            token_view(self.spec_tokens()[id])
        } else {
            None
        }
    }

    /// Every group lists exactly the ids of the non-empty tokens with that first
    /// byte, and the empty list exactly the ids of the empty tokens.
    pub open spec fn wf(&self) -> bool {
        &&& self.size() <= u32::MAX as nat + 1
        &&& self.group_count() == 256
        &&& forall|b: int, j: int|
            0 <= b < 256 && 0 <= j < self.spec_group(b).len() ==> {
                let id = #[trigger] self.spec_group(b)[j];
                &&& self.token(id as int) is Some
                &&& self.token(id as int)->0.len() > 0
                &&& self.token(id as int)->0[0] == b
            }
        &&& forall|id: int|
            #![trigger self.token(id)]
            self.token(id) is Some && self.token(id)->0.len() > 0 ==> self.spec_group(
                self.token(id)->0[0] as int,
            ).contains(id as u32)
        &&& forall|j: int|
            0 <= j < self.spec_empty_ids().len() ==> {
                let id = #[trigger] self.spec_empty_ids()[j];
                &&& self.token(id as int) is Some
                &&& self.token(id as int)->0.len() == 0
            }
        &&& forall|id: int|
            #![trigger self.token(id)]
            self.token(id) is Some && self.token(id)->0.len() == 0
                ==> self.spec_empty_ids().contains(id as u32)
    }

    /// Builds a vocabulary in which id `i` stands for `id_to_token[i]`.
    pub fn new(id_to_token: Vec<Option<Vec<u8>>>) -> (r: Result<Vocabulary, CreateVocabularyError>)
        ensures
            r is Ok <==> id_to_token@.len() <= u32::MAX as nat + 1,
            r matches Ok(v) ==> v.wf() && v.spec_tokens() == id_to_token@,
    {
        if id_to_token.len() as u64 > 4294967296u64 {
            return Err(CreateVocabularyError::TooManyTokens);
        }
        let mut groups: Vec<Vec<u32>> = Vec::new();
        let mut b: usize = 0;
        while b < 256
            invariant
                b <= 256,
                groups@.len() == b,
                forall|k: int| 0 <= k < b ==> (#[trigger] groups@[k])@.len() == 0,
            decreases 256 - b,
        {
            groups.push(Vec::new());
            b = b + 1;
        }
        let mut empty: Vec<u32> = Vec::new();
        let ghost toks = id_to_token@.map_values(|t: Option<Vec<u8>>| token_view(t));
        let mut i: usize = 0;
        while i < id_to_token.len()
            invariant
                id_to_token@.len() <= u32::MAX as nat + 1,
                i <= id_to_token@.len(),
                groups@.len() == 256,
                forall|b: int, j: int|
                    0 <= b < 256 && 0 <= j < groups@[b]@.len() ==> {
                        let id = #[trigger] groups@[b]@[j];
                        &&& id < i
                        &&& id_to_token@[id as int] is Some
                        &&& id_to_token@[id as int]->0@.len() > 0
                        &&& id_to_token@[id as int]->0@[0] == b
                    },
                forall|id: int|
                    #![trigger id_to_token@[id]]
                    0 <= id < i && id_to_token@[id] is Some && id_to_token@[id]->0@.len() > 0
                        ==> groups@[id_to_token@[id]->0@[0] as int]@.contains(id as u32),
                forall|j: int|
                    0 <= j < empty@.len() ==> {
                        let id = #[trigger] empty@[j];
                        &&& id < i
                        &&& id_to_token@[id as int] is Some
                        &&& id_to_token@[id as int]->0@.len() == 0
                    },
                forall|id: int|
                    #![trigger id_to_token@[id]]
                    0 <= id < i && id_to_token@[id] is Some && id_to_token@[id]->0@.len() == 0
                        ==> empty@.contains(id as u32),
            decreases id_to_token@.len() - i,
        {
            match &id_to_token[i] {
                Some(bytes) => {
                    if bytes.len() == 0 {
                        let ghost before = empty@;
                        empty.push(i as u32);
                        assert(empty@.last() == i as u32);
                        assert forall|id: int|
                            #![trigger id_to_token@[id]]
                            0 <= id < i + 1 && id_to_token@[id] is Some && id_to_token@[id]->0@.len()
                                == 0 implies empty@.contains(id as u32) by {
                            if id < i {
                                let k = choose|k: int|
                                    0 <= k < before.len() && before[k] == id as u32;
                                assert(empty@[k] == id as u32);
                            }
                        }
                    } else {
                        let fb = bytes[0] as usize;
                        let ghost before = groups@;
                        let mut g = Vec::new();
                        groups.set_and_swap(fb, &mut g);
                        g.push(i as u32);
                        groups.set_and_swap(fb, &mut g);
                        assert(groups@[fb as int]@ == before[fb as int]@.push(i as u32));
                        assert forall|b: int, j: int|
                            0 <= b < 256 && 0 <= j < groups@[b]@.len() implies {
                                let id = #[trigger] groups@[b]@[j];
                                &&& id < i + 1
                                &&& id_to_token@[id as int] is Some
                                &&& id_to_token@[id as int]->0@.len() > 0
                                &&& id_to_token@[id as int]->0@[0] == b
                            } by {
                            if b != fb as int {
                                assert(groups@[b] == before[b]);
                            } else if j < before[b]@.len() {
                                assert(groups@[b]@[j] == before[b]@[j]);
                            }
                        }
                        assert forall|id: int|
                            #![trigger id_to_token@[id]]
                            0 <= id < i + 1 && id_to_token@[id] is Some && id_to_token@[id]->0@.len()
                                > 0 implies groups@[id_to_token@[id]->0@[0] as int]@.contains(
                            id as u32,
                        ) by {
                            let c = id_to_token@[id]->0@[0] as int;
                            if id < i {
                                assert(before[c]@.contains(id as u32));
                                if c == fb as int {
                                    let k = choose|k: int|
                                        0 <= k < before[c]@.len() && before[c]@[k] == id as u32;
                                    assert(groups@[c]@[k] == id as u32);
                                } else {
                                    assert(groups@[c] == before[c]);
                                }
                            } else {
                                assert(groups@[c]@.last() == id as u32);
                            }
                        }
                    }
                },
                None => {},
            }
            i = i + 1;
        }
        let v = Vocabulary { id_to_token, first_byte_to_token_ids: groups, empty_token_ids: empty };
        assert forall|id: int|
            #![trigger v.token(id)]
            v.token(id) is Some && v.token(id)->0.len() > 0 implies v.spec_group(
                v.token(id)->0[0] as int,
            ).contains(id as u32) by {
            assert(v.id_to_token@[id] is Some);
        }
        assert forall|id: int|
            #![trigger v.token(id)]
            v.token(id) is Some && v.token(id)->0.len() == 0 implies v.spec_empty_ids().contains(
                id as u32,
            ) by {
            assert(v.id_to_token@[id] is Some);
        }
        Ok(v)
    }

    /// The number of token ids.
    pub fn get_vocab_size(&self) -> (r: usize)
        ensures
            r == self.size(),
    {
        self.id_to_token.len()
    }

    /// The bytes of token `id`, or `None` for an unknown id.
    pub fn get_token_from_token_id(&self, id: u32) -> (r: Option<&Vec<u8>>)
        ensures
            match r {
                Some(t) => self.token(id as int) == Some(t@),
                None => self.token(id as int) is None,
            },
    {
        if (id as usize) < self.id_to_token.len() {
            match &self.id_to_token[id as usize] {
                Some(t) => Some(t),
                None => None,
            }
        } else {
            None
        }
    }

    /// The ids of the non-empty tokens whose first byte is `b`.
    pub fn get_token_ids_from_first_byte(&self, b: u8) -> (r: &Vec<u32>)
        requires
            self.wf(),
        ensures
            r@ == self.spec_group(b as int),
    {
        &self.first_byte_to_token_ids[b as usize]
    }

    /// The ids of the empty tokens.
    pub fn get_empty_token_ids(&self) -> (r: &Vec<u32>)
        ensures
            r@ == self.spec_empty_ids(),
    {
        &self.empty_token_ids
    }
}

} // verus!
