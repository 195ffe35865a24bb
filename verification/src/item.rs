//! Items of the server's item space: construction, their map and
//! reference forms, the parameters of the requests made about them,
//! and the reading of the answers those requests get.
//!
//! Each operation that asks the server something comes in two halves:
//! a `*_params` builder for the request's arguments, and a method
//! named for the operation that turns the request's outcome into the
//! typed result.  The outcome argument is `None` where no connection exists;
//! the transport between the two halves stays outside the library.
use vstd::prelude::*;

use crate::model::{has_key, lemma_model_pairs, lookup, model_pairs, CdcModel};
use crate::protocol::ConnectionError;
use crate::value::{CdcDict, CdcValue, Item};

verus! {

/// The reference under the given key and the first occurrence it
/// stands at, if any.
#[verifier::loop_isolation(false)]
pub fn find_entry<'a>(dict: &'a CdcDict, key: &String) -> (r: Option<&'a CdcValue>)
    ensures
        (match r {
            Some(v) => has_key(model_pairs(dict@), key@) && v.model() == lookup(
                model_pairs(dict@),
                key@,
            ),
            None => !has_key(model_pairs(dict@), key@) && lookup(model_pairs(dict@), key@)
                == CdcModel::NONE,
        }),
{
    broadcast use vstd::std_specs::vec::group_vec_axioms, vstd::seq::group_seq_axioms;

    proof {
        lemma_model_pairs(dict@);
    }
    let n = dict.len();
    let mut j: usize = 0;
    while j < n
        invariant
            j <= n,
            n == dict@.len(),
            forall|i: int| 0 <= i < j ==> dict@[i].0@ != key@,
        decreases n - j,
    {
        if dict[j].0 == *key {
            proof {
                crate::model::lemma_first_occurrence(model_pairs(dict@), key@, j as int);
            }
            return Some(&dict[j].1);
        }
        j += 1;
    }
    proof {
        crate::model::lemma_key_absent(model_pairs(dict@), key@);
        crate::model::lemma_lookup_absent(model_pairs(dict@), key@);
    }
    None
}

/// True when the id begins with the host-API prefix, whose items
/// print as their own id.
pub open spec fn is_api_id(id: Seq<char>) -> bool {
    id.len() >= 4 && id[0] == 'g' && id[1] == 'o' && id[2] == 'm' && id[3] == '.'
}

impl Item {
    /// A new item with the given id, category and stage.
    pub fn new(id: String, category: i32, stage: i32) -> (r: Self)
        ensures
            r.id == id,
            r.category == category,
            r.stage == stage,
    {
        Item { id, category, stage }
    }

    /// This item as a map of its fields, for transmission.
    fn to_map(&self) -> (r: CdcDict)
        ensures
            model_pairs(r@) == seq![
                ("id"@, CdcModel::STRING(self.id@)),
                ("category"@, CdcModel::INTEGER(self.category as i64)),
                ("stage"@, CdcModel::INTEGER(self.stage as i64)),
            ],
    {
        broadcast use vstd::std_specs::vec::group_vec_axioms, vstd::seq::group_seq_axioms;

        let mut map: CdcDict = Vec::new();
        map.push(("id".to_owned(), CdcValue::STRING(self.id.clone())));
        map.push(("category".to_owned(), CdcValue::INTEGER(self.category as i64)));
        map.push(("stage".to_owned(), CdcValue::INTEGER(self.stage as i64)));
        proof {
            lemma_model_pairs(map@);
            assert(model_pairs(map@) =~= seq![
                ("id"@, CdcModel::STRING(self.id@)),
                ("category"@, CdcModel::INTEGER(self.category as i64)),
                ("stage"@, CdcModel::INTEGER(self.stage as i64)),
            ]);
        }
        map
    }

    /// The plain map form of this item.
    pub fn to_json(&self) -> (r: CdcDict)
        ensures
            model_pairs(r@) == seq![
                ("id"@, CdcModel::STRING(self.id@)),
                ("category"@, CdcModel::INTEGER(self.category as i64)),
                ("stage"@, CdcModel::INTEGER(self.stage as i64)),
            ],
    {
        self.to_map()
    }

    /// The reference form of this item, for protocol messages.
    pub fn to_api_json(&self) -> (r: CdcDict)
        ensures
            model_pairs(r@) == seq![
                ("$type"@, CdcModel::STRING("reference"@)),
                ("id"@, CdcModel::STRING(self.id@)),
                ("category"@, CdcModel::INTEGER(self.category as i64)),
            ],
    {
        broadcast use vstd::std_specs::vec::group_vec_axioms, vstd::seq::group_seq_axioms;

        let mut map: CdcDict = Vec::new();
        map.push(("$type".to_owned(), CdcValue::STRING("reference".to_owned())));
        map.push(("id".to_owned(), CdcValue::STRING(self.id.clone())));
        map.push(("category".to_owned(), CdcValue::INTEGER(self.category as i64)));
        proof {
            lemma_model_pairs(map@);
            assert(model_pairs(map@) =~= seq![
                ("$type"@, CdcModel::STRING("reference"@)),
                ("id"@, CdcModel::STRING(self.id@)),
                ("category"@, CdcModel::INTEGER(self.category as i64)),
            ]);
        }
        map
    }

    /// An item read from parameters: the id is owed as a string, the
    /// category and stage default to zero and to the stage-less stage
    /// where missing or mistyped.
    pub fn from_params(params: &CdcDict) -> (r: Result<Self, ConnectionError>)
        ensures
            (match r {
                Ok(item) => {
                    &&& has_key(model_pairs(params@), "id"@)
                    &&& lookup(model_pairs(params@), "id"@) is STRING
                    &&& item.id@ == lookup(model_pairs(params@), "id"@)->STRING_0
                    &&& item.category as i64 == (
                    match lookup(model_pairs(params@), "category"@) {
                        CdcModel::INTEGER(i) => i as i32 as i64,
                        _ => 0i64,
                    })
                    &&& item.stage as i64 == (match lookup(model_pairs(params@), "stage"@) {
                        CdcModel::INTEGER(i) => i as i32 as i64,
                        _ => -1i64,
                    })
                },
                Err(e) => e == ConnectionError::Request && !(has_key(model_pairs(params@), "id"@)
                    && lookup(model_pairs(params@), "id"@) is STRING),
            }),
    {
        let id: String = match find_entry(params, &"id".to_owned()) {
            Some(CdcValue::STRING(s)) => s.clone(),
            _ => {
                return Err(ConnectionError::Request);
            },
        };
        let category: i32 = match find_entry(params, &"category".to_owned()) {
            Some(CdcValue::INTEGER(i)) => *i as i32,
            _ => 0,
        };
        let stage: i32 = match find_entry(params, &"stage".to_owned()) {
            Some(CdcValue::INTEGER(i)) => *i as i32,
            _ => -1,
        };
        Ok(Item { id, category, stage })
    }

    /// The parameters naming this item alone, as the length, string
    /// representation and token requests send them.
    pub fn item_params(&self) -> (r: CdcDict)
        ensures
            model_pairs(r@) == seq![("item"@, CdcModel::MAP(self.map_model()))],
    {
        broadcast use vstd::std_specs::vec::group_vec_axioms, vstd::seq::group_seq_axioms;

        let mut params: CdcDict = Vec::new();
        params.push(("item".to_owned(), CdcValue::MAP(self.to_map())));
        proof {
            lemma_model_pairs(params@);
            assert(model_pairs(params@) =~= seq![("item"@, CdcModel::MAP(self.map_model()))]);
        }
        params
    }

    /// The model of this item's map form.
    pub open spec fn map_model(self) -> Seq<(Seq<char>, CdcModel)> {
        seq![
            ("id"@, CdcModel::STRING(self.id@)),
            ("category"@, CdcModel::INTEGER(self.category as i64)),
            ("stage"@, CdcModel::INTEGER(self.stage as i64)),
        ]
    }

    /// The parameters of an attribute read: the item, the attribute
    /// name, and the index where one is given.
    pub fn get_params(&self, key: &str, index: Option<i64>) -> (r: CdcDict)
        ensures
            model_pairs(r@) == (match index {
                Some(idx) => seq![
                    ("item"@, CdcModel::MAP(self.map_model())),
                    ("name"@, CdcModel::STRING(key@)),
                    ("index"@, CdcModel::INTEGER(idx)),
                ],
                None => seq![
                    ("item"@, CdcModel::MAP(self.map_model())),
                    ("name"@, CdcModel::STRING(key@)),
                ],
            }),
    {
        broadcast use vstd::std_specs::vec::group_vec_axioms, vstd::seq::group_seq_axioms;

        let mut params: CdcDict = Vec::new();
        params.push(("item".to_owned(), CdcValue::MAP(self.to_map())));
        params.push(("name".to_owned(), CdcValue::STRING(key.to_owned())));
        match index {
            Some(idx) => {
                params.push(("index".to_owned(), CdcValue::INTEGER(idx)));
                proof {
                    lemma_model_pairs(params@);
                    assert(model_pairs(params@) =~= seq![
                        ("item"@, CdcModel::MAP(self.map_model())),
                        ("name"@, CdcModel::STRING(key@)),
                        ("index"@, CdcModel::INTEGER(idx)),
                    ]);
                }
            },
            None => {
                proof {
                    lemma_model_pairs(params@);
                    assert(model_pairs(params@) =~= seq![
                        ("item"@, CdcModel::MAP(self.map_model())),
                        ("name"@, CdcModel::STRING(key@)),
                    ]);
                }
            },
        }
        params
    }

    /// The parameters of a filter request: the item, the expression,
    /// and the condition where one is given.
    pub fn filter_params(&self, expression: &str, condition: Option<&str>) -> (r: CdcDict)
        ensures
            model_pairs(r@) == (match condition {
                Some(cond) => seq![
                    ("item"@, CdcModel::MAP(self.map_model())),
                    ("expression"@, CdcModel::STRING(expression@)),
                    ("condition"@, CdcModel::STRING(cond@)),
                ],
                None => seq![
                    ("item"@, CdcModel::MAP(self.map_model())),
                    ("expression"@, CdcModel::STRING(expression@)),
                ],
            }),
    {
        broadcast use vstd::std_specs::vec::group_vec_axioms, vstd::seq::group_seq_axioms;

        let mut params: CdcDict = Vec::new();
        params.push(("item".to_owned(), CdcValue::MAP(self.to_map())));
        params.push(("expression".to_owned(), CdcValue::STRING(expression.to_owned())));
        match condition {
            Some(cond) => {
                params.push(("condition".to_owned(), CdcValue::STRING(cond.to_owned())));
                proof {
                    lemma_model_pairs(params@);
                    assert(model_pairs(params@) =~= seq![
                        ("item"@, CdcModel::MAP(self.map_model())),
                        ("expression"@, CdcModel::STRING(expression@)),
                        ("condition"@, CdcModel::STRING(cond@)),
                    ]);
                }
            },
            None => {
                proof {
                    lemma_model_pairs(params@);
                    assert(model_pairs(params@) =~= seq![
                        ("item"@, CdcModel::MAP(self.map_model())),
                        ("expression"@, CdcModel::STRING(expression@)),
                    ]);
                }
            },
        }
        params
    }

    /// The parameters of a comparison against another item, for the
    /// order and equality requests.
    pub fn compare_params(&self, other: &Item) -> (r: CdcDict)
        ensures
            model_pairs(r@) == seq![
                ("item"@, CdcModel::MAP(self.map_model())),
                ("other"@, CdcModel::MAP(other.map_model())),
            ],
    {
        broadcast use vstd::std_specs::vec::group_vec_axioms, vstd::seq::group_seq_axioms;

        let mut params: CdcDict = Vec::new();
        params.push(("item".to_owned(), CdcValue::MAP(self.to_map())));
        params.push(("other".to_owned(), CdcValue::MAP(other.to_map())));
        proof {
            lemma_model_pairs(params@);
            assert(model_pairs(params@) =~= seq![
                ("item"@, CdcModel::MAP(self.map_model())),
                ("other"@, CdcModel::MAP(other.map_model())),
            ]);
        }
        params
    }

    /// The parameters of an attribute access: the item, the name and
    /// the item's stage.
    pub fn attr_params(&self, name: &str) -> (r: CdcDict)
        ensures
            model_pairs(r@) == seq![
                ("item"@, CdcModel::MAP(self.map_model())),
                ("name"@, CdcModel::STRING(name@)),
                ("stage"@, CdcModel::INTEGER(self.stage as i64)),
            ],
    {
        broadcast use vstd::std_specs::vec::group_vec_axioms, vstd::seq::group_seq_axioms;

        let mut params: CdcDict = Vec::new();
        params.push(("item".to_owned(), CdcValue::MAP(self.to_map())));
        params.push(("name".to_owned(), CdcValue::STRING(name.to_owned())));
        params.push(("stage".to_owned(), CdcValue::INTEGER(self.stage as i64)));
        proof {
            lemma_model_pairs(params@);
            assert(model_pairs(params@) =~= seq![
                ("item"@, CdcModel::MAP(self.map_model())),
                ("name"@, CdcModel::STRING(name@)),
                ("stage"@, CdcModel::INTEGER(self.stage as i64)),
            ]);
        }
        params
    }

    /// The parameters of an attribute write: the item, the name and
    /// the value to set.
    pub fn set_attr_params(&self, name: &str, value: CdcValue) -> (r: CdcDict)
        ensures
            model_pairs(r@) == seq![
                ("item"@, CdcModel::MAP(self.map_model())),
                ("name"@, CdcModel::STRING(name@)),
                ("value"@, value.model()),
            ],
    {
        broadcast use vstd::std_specs::vec::group_vec_axioms, vstd::seq::group_seq_axioms;

        let ghost vm = value.model();
        let mut params: CdcDict = Vec::new();
        params.push(("item".to_owned(), CdcValue::MAP(self.to_map())));
        params.push(("name".to_owned(), CdcValue::STRING(name.to_owned())));
        params.push(("value".to_owned(), value));
        proof {
            lemma_model_pairs(params@);
            assert(model_pairs(params@) =~= seq![
                ("item"@, CdcModel::MAP(self.map_model())),
                ("name"@, CdcModel::STRING(name@)),
                ("value"@, vm),
            ]);
        }
        params
    }

    /// The parameters of a keyed access: the item and the key, under
    /// the attribute-name key.
    pub fn key_params(&self, key: &str) -> (r: CdcDict)
        ensures
            model_pairs(r@) == seq![
                ("item"@, CdcModel::MAP(self.map_model())),
                ("name"@, CdcModel::STRING(key@)),
            ],
    {
        broadcast use vstd::std_specs::vec::group_vec_axioms, vstd::seq::group_seq_axioms;

        let mut params: CdcDict = Vec::new();
        params.push(("item".to_owned(), CdcValue::MAP(self.to_map())));
        params.push(("name".to_owned(), CdcValue::STRING(key.to_owned())));
        proof {
            lemma_model_pairs(params@);
            assert(model_pairs(params@) =~= seq![
                ("item"@, CdcModel::MAP(self.map_model())),
                ("name"@, CdcModel::STRING(key@)),
            ]);
        }
        params
    }

    /// The parameters of a documentation request: the item under the
    /// object key.
    pub fn doc_params(&self) -> (r: CdcDict)
        ensures
            model_pairs(r@) == seq![("object"@, CdcModel::MAP(self.map_model()))],
    {
        broadcast use vstd::std_specs::vec::group_vec_axioms, vstd::seq::group_seq_axioms;

        let mut params: CdcDict = Vec::new();
        params.push(("object".to_owned(), CdcValue::MAP(self.to_map())));
        proof {
            lemma_model_pairs(params@);
            assert(model_pairs(params@) =~= seq![("object"@, CdcModel::MAP(self.map_model()))]);
        }
        params
    }

    /// The value of an attribute read, from the outcome of a request
    /// built with `get_params`: the answer as the server gave it.
    pub fn get(&self, key: &str, index: Option<i64>, outcome: Option<
        Result<CdcValue, ConnectionError>,
    >) -> (r: Result<CdcValue, ConnectionError>)
        ensures
            (match outcome {
                Some(x) => r == x,
                None => r == Err::<CdcValue, ConnectionError>(ConnectionError::Request),
            }),
    {
        match outcome {
            Some(x) => x,
            None => Err(ConnectionError::Request),
        }
    }

    /// The tokens of this item, from the outcome of a request built
    /// with `item_params`.
    pub fn get_tokens(&self, outcome: Option<Result<CdcValue, ConnectionError>>) -> (r: Result<
        CdcValue,
        ConnectionError,
    >)
        ensures
            (match outcome {
                Some(x) => r == x,
                None => r == Err::<CdcValue, ConnectionError>(ConnectionError::Request),
            }),
    {
        match outcome {
            Some(x) => x,
            None => Err(ConnectionError::Request),
        }
    }

    /// The filtered data, from the outcome of a request built with
    /// `filter_params`.
    pub fn filter(&self, expression: &str, condition: Option<&str>, outcome: Option<
        Result<CdcValue, ConnectionError>,
    >) -> (r: Result<CdcValue, ConnectionError>)
        ensures
            (match outcome {
                Some(x) => r == x,
                None => r == Err::<CdcValue, ConnectionError>(ConnectionError::Request),
            }),
    {
        match outcome {
            Some(x) => x,
            None => Err(ConnectionError::Request),
        }
    }

    /// Whether this item orders below the other, from the outcome of a
    /// request built with `compare_params`: the answer is owed as a
    /// boolean.
    pub fn less_than(&self, other: &Item, outcome: Option<Result<CdcValue, ConnectionError>>) -> (r:
        Result<bool, ConnectionError>)
        ensures
            (match outcome {
                Some(Ok(v)) => (match v.model() {
                    CdcModel::BOOL(b) => r == Ok::<bool, ConnectionError>(b),
                    _ => r == Err::<bool, ConnectionError>(ConnectionError::Request),
                }),
                Some(Err(e)) => r == Err::<bool, ConnectionError>(e),
                None => r == Err::<bool, ConnectionError>(ConnectionError::Request),
            }),
    {
        match outcome {
            Some(Ok(CdcValue::BOOL(b))) => Ok(b),
            Some(Ok(_)) => Err(ConnectionError::Request),
            Some(Err(e)) => Err(e),
            None => Err(ConnectionError::Request),
        }
    }

    /// Whether this item equals the other.  Items of one category with
    /// one id are equal without asking; otherwise the outcome of a
    /// request built with `compare_params` decides, and is owed as a
    /// boolean.
    pub fn equals(&self, other: &Item, outcome: Option<Result<CdcValue, ConnectionError>>) -> (r:
        Result<bool, ConnectionError>)
        ensures
            self.category == other.category && self.id@ == other.id@ ==> r == Ok::<
                bool,
                ConnectionError,
            >(true),
            self.category != other.category || self.id@ != other.id@ ==> (match outcome {
                Some(Ok(v)) => (match v.model() {
                    CdcModel::BOOL(b) => r == Ok::<bool, ConnectionError>(b),
                    _ => r == Err::<bool, ConnectionError>(ConnectionError::Request),
                }),
                Some(Err(e)) => r == Err::<bool, ConnectionError>(e),
                None => r == Err::<bool, ConnectionError>(ConnectionError::Request),
            }),
    {
        if self.category == other.category && self.id == other.id {
            return Ok(true);
        }
        match outcome {
            Some(Ok(CdcValue::BOOL(b))) => Ok(b),
            Some(Ok(_)) => Err(ConnectionError::Request),
            Some(Err(e)) => Err(e),
            None => Err(ConnectionError::Request),
        }
    }

    /// An attribute of this item, from the outcome of a request built
    /// with `attr_params`.
    pub fn get_attr(&self, name: &str, outcome: Option<Result<CdcValue, ConnectionError>>) -> (r:
        Result<CdcValue, ConnectionError>)
        ensures
            (match outcome {
                Some(x) => r == x,
                None => r == Err::<CdcValue, ConnectionError>(ConnectionError::Request),
            }),
    {
        match outcome {
            Some(x) => x,
            None => Err(ConnectionError::Request),
        }
    }

    /// The acknowledgement of an attribute write, from the outcome of
    /// a request built with `set_attr_params`: any reply value counts
    /// as done.
    pub fn set_attr(&self, name: &str, outcome: Option<Result<CdcValue, ConnectionError>>) -> (r:
        Result<(), ConnectionError>)
        ensures
            (match outcome {
                Some(Ok(_)) => r == Ok::<(), ConnectionError>(()),
                Some(Err(e)) => r == Err::<(), ConnectionError>(e),
                None => r == Err::<(), ConnectionError>(ConnectionError::Request),
            }),
    {
        match outcome {
            Some(Ok(_)) => Ok(()),
            Some(Err(e)) => Err(e),
            None => Err(ConnectionError::Request),
        }
    }

    /// The value under a key of this item, from the outcome of a
    /// request built with `key_params`.
    pub fn get_item(&self, key: &str, outcome: Option<Result<CdcValue, ConnectionError>>) -> (r:
        Result<CdcValue, ConnectionError>)
        ensures
            (match outcome {
                Some(x) => r == x,
                None => r == Err::<CdcValue, ConnectionError>(ConnectionError::Request),
            }),
    {
        match outcome {
            Some(x) => x,
            None => Err(ConnectionError::Request),
        }
    }

    /// The length of this item, from the outcome of a request built
    /// with `item_params`: the answer is owed as an integer.
    pub fn len(&self, outcome: Option<Result<CdcValue, ConnectionError>>) -> (r: Result<
        i64,
        ConnectionError,
    >)
        ensures
            (match outcome {
                Some(Ok(v)) => (match v.model() {
                    CdcModel::INTEGER(l) => r == Ok::<i64, ConnectionError>(l),
                    _ => r == Err::<i64, ConnectionError>(ConnectionError::Request),
                }),
                Some(Err(e)) => r == Err::<i64, ConnectionError>(e),
                None => r == Err::<i64, ConnectionError>(ConnectionError::Request),
            }),
    {
        match outcome {
            Some(Ok(CdcValue::INTEGER(l))) => Ok(l),
            Some(Ok(_)) => Err(ConnectionError::Request),
            Some(Err(e)) => Err(e),
            None => Err(ConnectionError::Request),
        }
    }

    /// True when this item has no elements: its length, read as `len`
    /// reads it, is zero.
    pub fn is_empty(&self, outcome: Option<Result<CdcValue, ConnectionError>>) -> (r: Result<
        bool,
        ConnectionError,
    >)
        ensures
            (match self.len_result(outcome) {
                Ok(l) => r == Ok::<bool, ConnectionError>(l == 0),
                Err(e) => r == Err::<bool, ConnectionError>(e),
            }),
    {
        match self.len(outcome) {
            Ok(l) => Ok(l == 0),
            Err(e) => Err(e),
        }
    }

    /// What `len` answers for the outcome.
    pub open spec fn len_result(self, outcome: Option<Result<CdcValue, ConnectionError>>) -> Result<
        i64,
        ConnectionError,
    > {
        match outcome {
            Some(Ok(v)) => (match v.model() {
                CdcModel::INTEGER(l) => Ok(l),
                _ => Err(ConnectionError::Request),
            }),
            Some(Err(e)) => Err(e),
            None => Err(ConnectionError::Request),
        }
    }

    /// The string representation of this item.  An id with the
    /// host-API prefix prints as itself without asking; otherwise the
    /// outcome of a request built with `item_params` decides, and is
    /// owed as a string.
    pub fn repr(&self, outcome: Option<Result<CdcValue, ConnectionError>>) -> (r: Result<
        String,
        ConnectionError,
    >)
        ensures
            is_api_id(self.id@) ==> (r matches Ok(s) && s@ == self.id@),
            !is_api_id(self.id@) ==> (match outcome {
                Some(Ok(v)) => (match v.model() {
                    CdcModel::STRING(s) => r matches Ok(rs) && rs@ == s,
                    _ => r == Err::<String, ConnectionError>(ConnectionError::Request),
                }),
                Some(Err(e)) => r == Err::<String, ConnectionError>(e),
                None => r == Err::<String, ConnectionError>(ConnectionError::Request),
            }),
    {
        broadcast use vstd::seq::group_seq_axioms;

        let id_str = self.id.as_str();
        let n = id_str.unicode_len();
        if n >= 4 && id_str.get_char(0) == 'g' && id_str.get_char(1) == 'o' && id_str.get_char(2)
            == 'm' && id_str.get_char(3) == '.' {
            return Ok(self.id.clone());
        }
        match outcome {
            Some(Ok(CdcValue::STRING(s))) => Ok(s),
            Some(Ok(_)) => Err(ConnectionError::Request),
            Some(Err(e)) => Err(e),
            None => Err(ConnectionError::Request),
        }
    }

    /// The documentation of this item, from the outcome of a request
    /// built with `doc_params`: the answer is owed as a string.
    pub fn doc(&self, outcome: Option<Result<CdcValue, ConnectionError>>) -> (r: Result<
        String,
        ConnectionError,
    >)
        ensures
            (match outcome {
                Some(Ok(v)) => (match v.model() {
                    CdcModel::STRING(s) => r matches Ok(rs) && rs@ == s,
                    _ => r == Err::<String, ConnectionError>(ConnectionError::Request),
                }),
                Some(Err(e)) => r == Err::<String, ConnectionError>(e),
                None => r == Err::<String, ConnectionError>(ConnectionError::Request),
            }),
    {
        match outcome {
            Some(Ok(CdcValue::STRING(s))) => Ok(s),
            Some(Ok(_)) => Err(ConnectionError::Request),
            Some(Err(e)) => Err(e),
            None => Err(ConnectionError::Request),
        }
    }
}

} // verus!
