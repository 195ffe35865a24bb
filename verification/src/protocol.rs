//! The request/reply protocol core: request kinds and their stable
//! integer codes, request framing, inbound frame classification, the
//! typed error taxonomy, and the translation helper.
//!
//! The transport itself stays outside the library: a caller sends the
//! bytes of [`build_request`], reads one frame at a time, decodes it
//! with the codec, and hands the decoded value to [`process_frame`],
//! acting on the step it returns.
use vstd::prelude::*;

use crate::model::{
    has_key, lemma_first_occurrence, lemma_key_absent, lemma_model_pairs, lookup,
    model_pairs, model_seq, remove_key, CdcModel,
};
use crate::value::{CdcDict, CdcList, CdcValue};

verus! {

/// A request kind.  Each kind has a stable integer code, part of the
/// wire contract; see [`Request::code`].
#[derive(Debug, Copy, Clone, PartialEq, Eq, Structural)]
#[allow(non_camel_case_types)]
pub enum Request {
    API,
    COMMAND,
    CONFIGURATION,
    CONSOLE,
    DATA_ARRAY,
    DATA_ATTR,
    DATA_INDEX,
    DATA_SHAPE,
    DOC,
    EQUAL,
    EXCEPTION,
    EXIT,
    GET,
    GETATTR,
    FILTER,
    IMPORT,
    INDEX,
    KEY,
    LEN,
    LESS,
    LINE,
    LOG,
    OBJECTTYPES,
    QUERY,
    REGISTER,
    RELEASE,
    REPR,
    RESOURCE_KEY,
    RESOURCE_LEN,
    RESULT,
    RUNAPI,
    SERVICE,
    SETATTR,
    SETENV,
    TEST,
    TOKENS,
    TRANSLATE,
    TYPE_CALL,
    TYPE_CONSTRUCT,
    TYPE_CMP,
    TYPE_DOC,
    TYPE_GETATTR,
    TYPE_GETITEM,
    TYPE_ITER,
    TYPE_LEN,
    TYPE_REPR,
    TYPE_SETATTR,
    TYPE_SETITEM,
    TYPE_STR,
    TEST_0,
    TEST_1,
    TEST_2,
    TEST_3,
    TEST_4,
    TEST_5,
}

impl Request {
    /// The stable integer code of this request kind.
    pub open spec fn code_spec(self) -> i64 {
        match self {
            Request::API => 1,
            Request::COMMAND => 2,
            Request::CONFIGURATION => 3,
            Request::CONSOLE => 4,
            Request::DATA_ARRAY => 5,
            Request::DATA_ATTR => 6,
            Request::DATA_INDEX => 7,
            Request::DATA_SHAPE => 8,
            Request::DOC => 9,
            Request::EQUAL => 10,
            Request::EXCEPTION => 11,
            Request::EXIT => 12,
            Request::GET => 13,
            Request::GETATTR => 14,
            Request::FILTER => 15,
            Request::IMPORT => 16,
            Request::INDEX => 17,
            Request::KEY => 18,
            Request::LEN => 19,
            Request::LESS => 20,
            Request::LINE => 21,
            Request::LOG => 22,
            Request::OBJECTTYPES => 23,
            Request::QUERY => 24,
            Request::REGISTER => 25,
            Request::RELEASE => 26,
            Request::REPR => 27,
            Request::RESOURCE_KEY => 28,
            Request::RESOURCE_LEN => 29,
            Request::RESULT => 30,
            Request::RUNAPI => 31,
            Request::SERVICE => 32,
            Request::SETATTR => 33,
            Request::SETENV => 34,
            Request::TEST => 35,
            Request::TOKENS => 36,
            Request::TRANSLATE => 37,
            Request::TYPE_CALL => 38,
            Request::TYPE_CONSTRUCT => 39,
            Request::TYPE_CMP => 40,
            Request::TYPE_DOC => 41,
            Request::TYPE_GETATTR => 42,
            Request::TYPE_GETITEM => 43,
            Request::TYPE_ITER => 44,
            Request::TYPE_LEN => 45,
            Request::TYPE_REPR => 46,
            Request::TYPE_SETATTR => 47,
            Request::TYPE_SETITEM => 48,
            Request::TYPE_STR => 49,
            Request::TEST_0 => 1000,
            Request::TEST_1 => 1001,
            Request::TEST_2 => 1002,
            Request::TEST_3 => 1003,
            Request::TEST_4 => 1004,
            Request::TEST_5 => 1005,
        }
    }

    /// The stable integer code of this request kind.
    #[verifier::when_used_as_spec(code_spec)]
    pub fn code(self) -> (r: i64)
        ensures
            r == self.code_spec(),
    {
        match self {
            Request::API => 1,
            Request::COMMAND => 2,
            Request::CONFIGURATION => 3,
            Request::CONSOLE => 4,
            Request::DATA_ARRAY => 5,
            Request::DATA_ATTR => 6,
            Request::DATA_INDEX => 7,
            Request::DATA_SHAPE => 8,
            Request::DOC => 9,
            Request::EQUAL => 10,
            Request::EXCEPTION => 11,
            Request::EXIT => 12,
            Request::GET => 13,
            Request::GETATTR => 14,
            Request::FILTER => 15,
            Request::IMPORT => 16,
            Request::INDEX => 17,
            Request::KEY => 18,
            Request::LEN => 19,
            Request::LESS => 20,
            Request::LINE => 21,
            Request::LOG => 22,
            Request::OBJECTTYPES => 23,
            Request::QUERY => 24,
            Request::REGISTER => 25,
            Request::RELEASE => 26,
            Request::REPR => 27,
            Request::RESOURCE_KEY => 28,
            Request::RESOURCE_LEN => 29,
            Request::RESULT => 30,
            Request::RUNAPI => 31,
            Request::SERVICE => 32,
            Request::SETATTR => 33,
            Request::SETENV => 34,
            Request::TEST => 35,
            Request::TOKENS => 36,
            Request::TRANSLATE => 37,
            Request::TYPE_CALL => 38,
            Request::TYPE_CONSTRUCT => 39,
            Request::TYPE_CMP => 40,
            Request::TYPE_DOC => 41,
            Request::TYPE_GETATTR => 42,
            Request::TYPE_GETITEM => 43,
            Request::TYPE_ITER => 44,
            Request::TYPE_LEN => 45,
            Request::TYPE_REPR => 46,
            Request::TYPE_SETATTR => 47,
            Request::TYPE_SETITEM => 48,
            Request::TYPE_STR => 49,
            Request::TEST_0 => 1000,
            Request::TEST_1 => 1001,
            Request::TEST_2 => 1002,
            Request::TEST_3 => 1003,
            Request::TEST_4 => 1004,
            Request::TEST_5 => 1005,
        }
    }
}

/// A typed error surfaced to a caller, mapped from the taxonomy string
/// of an error frame.
#[derive(Debug, Copy, Clone, PartialEq, Eq, Structural)]
pub enum ConnectionError {
    /// The attribute taxonomy.
    Attribute,
    /// The import taxonomy.
    Import,
    /// The index taxonomy.
    Index,
    /// Any other failure of a request.
    Request,
    /// The abort/break taxonomy.
    Break,
}

/// The payload of an error frame, fields preserved as received.
#[derive(Debug, PartialEq)]
pub struct ReplyError {
    /// The taxonomy string.
    pub error_type: String,
    /// The human-readable description.
    pub description: String,
    /// The numeric code.
    pub code: i64,
    /// The server-side log text.
    pub log: String,
    /// The opaque payload blob.
    pub value: Vec<u8>,
}

/// The outcome of a request: the reply value, or a typed error record.
#[derive(Debug, PartialEq)]
pub enum Reply {
    /// An error frame's payload.
    ERROR(ReplyError),
    /// A reply frame's value.
    REPLY(CdcValue),
}

/// The error kind that a taxonomy string maps to.
pub open spec fn error_kind_spec(t: Seq<char>) -> ConnectionError {
    if t == "Tom::GScript::BreakException"@ {
        ConnectionError::Break
    } else if t == "Tom::GScript::AttributeException"@ {
        ConnectionError::Attribute
    } else if t == "Tom::GScript::ImportException"@ {
        ConnectionError::Import
    } else if t == "Tom::GScript::IndexException"@ {
        ConnectionError::Index
    } else {
        ConnectionError::Request
    }
}

/// True when the string holds exactly the literal's characters.
fn str_is(s: &String, lit: &str) -> (r: bool)
    ensures
        r == (s@ == lit@),
{
    let other: String = lit.to_owned();
    *s == other
}

impl From<ReplyError> for ConnectionError {
    /// The typed error kind named by the error record's taxonomy
    /// string.
    fn from(err: ReplyError) -> (r: Self)
        ensures
            r == error_kind_spec(err.error_type@),
    {
        if str_is(&err.error_type, "Tom::GScript::BreakException") {
            ConnectionError::Break
        } else if str_is(&err.error_type, "Tom::GScript::AttributeException") {
            ConnectionError::Attribute
        } else if str_is(&err.error_type, "Tom::GScript::ImportException") {
            ConnectionError::Import
        } else if str_is(&err.error_type, "Tom::GScript::IndexException") {
            ConnectionError::Index
        } else {
            ConnectionError::Request
        }
    }
}

impl vstd::std_specs::convert::FromSpecImpl<ReplyError> for ConnectionError {
    open spec fn obeys_from_spec() -> bool {
        true
    }

    open spec fn from_spec(err: ReplyError) -> ConnectionError {
        error_kind_spec(err.error_type@)
    }
}

/// What the client does with one inbound frame.
#[derive(Debug, PartialEq)]
pub enum Step {
    /// An outcome frame.  It resolves the request whose correlation id
    /// it carries; where the frame carries no id, it resolves the
    /// request being awaited.  An outcome for another id is stored in
    /// the pending table for its own caller.
    DONE { id: Option<String>, outcome: Reply },
    /// A keepalive; keep reading.
    CONTINUE,
    /// A server-initiated upcall: invoke the callable registered under
    /// the handle with these arguments and send its result back as a
    /// bare value.
    RESPOND { handle: u64, args: CdcList, kwargs: CdcDict },
}

/// The model of an outcome, over the value model.
pub enum ReplyModel {
    /// A reply outcome.
    REPLY(CdcModel),
    /// An error outcome, fields preserved.
    ERROR {
        error_type: Seq<char>,
        description: Seq<char>,
        code: i64,
        log: Seq<char>,
        value: Seq<u8>,
    },
}

/// The model of a step, over the value model.
pub enum StepModel {
    /// An outcome frame with its correlation id, where it carries one.
    DONE { id: Option<Seq<char>>, outcome: ReplyModel },
    /// A keepalive.
    CONTINUE,
    /// An upcall.
    RESPOND { handle: u64, args: Seq<CdcModel>, kwargs: Seq<(Seq<char>, CdcModel)> },
}

impl Reply {
    /// The model of this outcome.
    pub open spec fn model(self) -> ReplyModel {
        match self {
            Reply::REPLY(v) => ReplyModel::REPLY(v.model()),
            Reply::ERROR(e) => ReplyModel::ERROR {
                error_type: e.error_type@,
                description: e.description@,
                code: e.code,
                log: e.log@,
                value: e.value@,
            },
        }
    }
}

impl Step {
    /// The model of this step.
    pub open spec fn model(self) -> StepModel {
        match self {
            Step::DONE { id, outcome } => StepModel::DONE {
                id: (match id {
                    Some(s) => Some(s@),
                    None => None,
                }),
                outcome: outcome.model(),
            },
            Step::CONTINUE => StepModel::CONTINUE,
            Step::RESPOND { handle, args, kwargs } => StepModel::RESPOND {
                handle,
                args: model_seq(args@),
                kwargs: model_pairs(kwargs@),
            },
        }
    }
}

/// The classification of an error frame's remaining pairs, read in
/// order: the taxonomy string reuses the key of the frame classifier,
/// which has already been removed, as has the correlation id.
pub open spec fn classify_error_spec(
    idv: Option<Seq<char>>,
    ps: Seq<(Seq<char>, CdcModel)>,
) -> Option<StepModel> {
    if !(has_key(ps, "type"@) && lookup(ps, "type"@) is STRING) {
        None
    } else {
        let p1 = remove_key(ps, "type"@);
        if !(has_key(p1, "description"@) && lookup(p1, "description"@) is STRING) {
            None
        } else {
            let p2 = remove_key(p1, "description"@);
            if !(has_key(p2, "code"@) && lookup(p2, "code"@) is INTEGER) {
                None
            } else {
                let p3 = remove_key(p2, "code"@);
                if !(has_key(p3, "log"@) && lookup(p3, "log"@) is STRING) {
                    None
                } else {
                    let p4 = remove_key(p3, "log"@);
                    if !(has_key(p4, "value"@) && lookup(p4, "value"@) is BLOB) {
                        None
                    } else {
                        Some(
                            StepModel::DONE {
                                id: idv,
                                outcome: ReplyModel::ERROR {
                                    error_type: lookup(ps, "type"@)->STRING_0,
                                    description: lookup(p1, "description"@)->STRING_0,
                                    code: lookup(p2, "code"@)->INTEGER_0,
                                    log: lookup(p3, "log"@)->STRING_0,
                                    value: lookup(p4, "value"@)->BLOB_0,
                                },
                            },
                        )
                    }
                }
            }
        }
    }
}

/// The classification of a call frame's remaining pairs, read in
/// order.
pub open spec fn classify_call_spec(ps: Seq<(Seq<char>, CdcModel)>) -> Option<StepModel> {
    if !(has_key(ps, "value"@) && lookup(ps, "value"@) is CALLABLE) {
        None
    } else {
        let p1 = remove_key(ps, "value"@);
        if !(has_key(p1, "args"@) && lookup(p1, "args"@) is LIST) {
            None
        } else {
            let p2 = remove_key(p1, "args"@);
            if !(has_key(p2, "kwargs"@) && lookup(p2, "kwargs"@) is MAP) {
                None
            } else {
                Some(
                    StepModel::RESPOND {
                        handle: lookup(ps, "value"@)->CALLABLE_0,
                        args: lookup(p1, "args"@)->LIST_0,
                        kwargs: lookup(p2, "kwargs"@)->MAP_0,
                    },
                )
            }
        }
    }
}

/// The classification of one inbound frame: a map whose `type` entry
/// says whether it carries a request's outcome (a reply or a typed
/// error, under the correlation id it names, if any), is a keepalive
/// to discard, or is an upcall to dispatch.  Anything else is a
/// protocol violation, fatal to the connection, as is an outcome
/// frame whose correlation id is not a string.
pub open spec fn classify_spec(m: CdcModel) -> Option<StepModel> {
    match m {
        CdcModel::MAP(ps) => {
            if !(has_key(ps, "type"@) && lookup(ps, "type"@) is STRING) {
                None
            } else {
                let ty = lookup(ps, "type"@)->STRING_0;
                let rest = remove_key(ps, "type"@);
                if ty == "wait"@ {
                    Some(StepModel::CONTINUE)
                } else if ty == "reply"@ || ty == "error"@ {
                    if has_key(rest, "id"@) && !(lookup(rest, "id"@) is STRING) {
                        None
                    } else {
                        let idv = if has_key(rest, "id"@) {
                            Some(lookup(rest, "id"@)->STRING_0)
                        } else {
                            None
                        };
                        let rest2 = if has_key(rest, "id"@) {
                            remove_key(rest, "id"@)
                        } else {
                            rest
                        };
                        if ty == "reply"@ {
                            if has_key(rest2, "value"@) {
                                Some(
                                    StepModel::DONE {
                                        id: idv,
                                        outcome: ReplyModel::REPLY(lookup(rest2, "value"@)),
                                    },
                                )
                            } else {
                                None
                            }
                        } else {
                            classify_error_spec(idv, rest2)
                        }
                    }
                } else if ty == "call"@ {
                    classify_call_spec(rest)
                } else {
                    None
                }
            }
        },
        _ => None,
    }
}

/// Removes the first entry under the key and hands its value out,
/// leaving the rest of the map in order.
#[verifier::loop_isolation(false)]
pub fn take_entry(dict: &mut CdcDict, key: &String) -> (r: Option<CdcValue>)
    ensures
        (match r {
            Some(v) => has_key(model_pairs(old(dict)@), key@) && v.model() == lookup(
                model_pairs(old(dict)@),
                key@,
            ) && model_pairs(final(dict)@) == remove_key(model_pairs(old(dict)@), key@),
            None => !has_key(model_pairs(old(dict)@), key@) && final(dict)@ == old(dict)@,
        }),
{
    broadcast use vstd::std_specs::vec::group_vec_axioms, vstd::seq::group_seq_axioms;

    let ghost mp = model_pairs(old(dict)@);
    proof {
        lemma_model_pairs(old(dict)@);
    }
    let n = dict.len();
    let mut j: usize = 0;
    while j < n
        invariant
            j <= n,
            n == dict@.len(),
            dict@ == old(dict)@,
            forall|i: int| 0 <= i < j ==> dict@[i].0@ != key@,
        decreases n - j,
    {
        if dict[j].0 == *key {
            let ghost jj = j as int;
            let pair = dict.remove(j);
            proof {
                lemma_first_occurrence(mp, key@, jj);
                lemma_model_pairs(dict@);
                assert(model_pairs(dict@) =~= mp.remove(jj));
            }
            return Some(pair.1);
        }
        j += 1;
    }
    proof {
        lemma_key_absent(mp, key@);
    }
    None
}

/// Classifies one decoded inbound frame and says what to do with it:
/// hand over a request's outcome under the correlation id the frame
/// names (an outcome without an id is for the awaited request), keep
/// reading, or dispatch an upcall.  `None` is a protocol violation —
/// a frame that is not a map, or whose `type` entry is missing, not a
/// string, or outside the protocol, or a frame without the fields its
/// kind calls for — and is fatal to the connection.
#[verifier::rlimit(30)]
pub fn process_frame(frame: CdcValue) -> (r: Option<Step>)
    ensures
        (match r {
            Some(st) => classify_spec(frame.model()) == Some(st.model()),
            None => classify_spec(frame.model()) is None,
        }),
{
    let mut dict: CdcDict = match frame {
        CdcValue::MAP(ps) => ps,
        _ => {
            return None;
        },
    };
    let ghost ps0 = model_pairs(dict@);
    let ty: String = match take_entry(&mut dict, &"type".to_owned()) {
        Some(CdcValue::STRING(s)) => s,
        Some(_) => {
            return None;
        },
        None => {
            return None;
        },
    };
    if str_is(&ty, "wait") {
        Some(Step::CONTINUE)
    } else if str_is(&ty, "reply") {
        let id: Option<String> = match take_entry(&mut dict, &"id".to_owned()) {
            Some(CdcValue::STRING(s)) => Some(s),
            Some(_) => {
                return None;
            },
            None => None,
        };
        match take_entry(&mut dict, &"value".to_owned()) {
            Some(v) => Some(Step::DONE { id, outcome: Reply::REPLY(v) }),
            None => None,
        }
    } else if str_is(&ty, "error") {
        let id: Option<String> = match take_entry(&mut dict, &"id".to_owned()) {
            Some(CdcValue::STRING(s)) => Some(s),
            Some(_) => {
                return None;
            },
            None => None,
        };
        let error_type: String = match take_entry(&mut dict, &"type".to_owned()) {
            Some(CdcValue::STRING(s)) => s,
            _ => {
                return None;
            },
        };
        let description: String = match take_entry(&mut dict, &"description".to_owned()) {
            Some(CdcValue::STRING(s)) => s,
            _ => {
                return None;
            },
        };
        let code: i64 = match take_entry(&mut dict, &"code".to_owned()) {
            Some(CdcValue::INTEGER(i)) => i,
            _ => {
                return None;
            },
        };
        let log: String = match take_entry(&mut dict, &"log".to_owned()) {
            Some(CdcValue::STRING(s)) => s,
            _ => {
                return None;
            },
        };
        let value: Vec<u8> = match take_entry(&mut dict, &"value".to_owned()) {
            Some(CdcValue::BLOB(b)) => b,
            _ => {
                return None;
            },
        };
        Some(
            Step::DONE {
                id,
                outcome: Reply::ERROR(
                    ReplyError { error_type, description, code, log, value },
                ),
            },
        )
    } else if str_is(&ty, "call") {
        let handle: u64 = match take_entry(&mut dict, &"value".to_owned()) {
            Some(CdcValue::CALLABLE(h)) => h,
            _ => {
                return None;
            },
        };
        let args: CdcList = match take_entry(&mut dict, &"args".to_owned()) {
            Some(CdcValue::LIST(es)) => es,
            _ => {
                return None;
            },
        };
        let kwargs: CdcDict = match take_entry(&mut dict, &"kwargs".to_owned()) {
            Some(CdcValue::MAP(ps)) => ps,
            _ => {
                return None;
            },
        };
        Some(Step::RESPOND { handle, args, kwargs })
    } else {
        None
    }
}

/// The first outcome stored under the id, if any.
pub open spec fn outcome_for(t: Seq<(Seq<char>, ReplyModel)>, k: Seq<char>) -> Option<ReplyModel>
    decreases t,
{
    if t.len() == 0 {
        None
    } else if t.first().0 == k {
        Some(t.first().1)
    } else {
        outcome_for(t.drop_first(), k)
    }
}

/// An outcome standing at the first occurrence of its id is the one
/// read back.
proof fn lemma_outcome_found(t: Seq<(Seq<char>, ReplyModel)>, k: Seq<char>, j: int)
    requires
        0 <= j < t.len(),
        t[j].0 == k,
        forall|i: int| 0 <= i < j ==> t[i].0 != k,
    ensures
        outcome_for(t, k) == Some(t[j].1),
    decreases t,
{
    if j > 0 {
        assert(forall|i: int| 0 <= i < t.drop_first().len() ==> t.drop_first()[i] == t[i + 1]);
        lemma_outcome_found(t.drop_first(), k, j - 1);
    }
}

/// An id absent from every entry reads as no outcome.
proof fn lemma_outcome_absent(t: Seq<(Seq<char>, ReplyModel)>, k: Seq<char>)
    requires
        forall|i: int| 0 <= i < t.len() ==> t[i].0 != k,
    ensures
        outcome_for(t, k) == None::<ReplyModel>,
    decreases t,
{
    if t.len() > 0 {
        assert(forall|i: int| 0 <= i < t.drop_first().len() ==> t.drop_first()[i] == t[i + 1]);
        lemma_outcome_absent(t.drop_first(), k);
    }
}

/// Two tables whose entries carry the same ids in the same order, and
/// agree wherever the id is not `k0`, read any other id alike.
proof fn lemma_outcome_other(
    t1: Seq<(Seq<char>, ReplyModel)>,
    t2: Seq<(Seq<char>, ReplyModel)>,
    k0: Seq<char>,
    k: Seq<char>,
)
    requires
        t2.len() == t1.len(),
        forall|i: int| 0 <= i < t1.len() ==> #[trigger] t2[i].0 == t1[i].0,
        forall|i: int| 0 <= i < t1.len() && t1[i].0 != k0 ==> #[trigger] t2[i] == t1[i],
        k != k0,
    ensures
        outcome_for(t2, k) == outcome_for(t1, k),
    decreases t1,
{
    if t1.len() > 0 {
        assert(forall|i: int| 0 <= i < t1.drop_first().len() ==> t1.drop_first()[i] == t1[i + 1]);
        assert(forall|i: int| 0 <= i < t2.drop_first().len() ==> t2.drop_first()[i] == t2[i + 1]);
        lemma_outcome_other(t1.drop_first(), t2.drop_first(), k0, k);
    }
}

/// The table of outcomes that arrived carrying another caller's
/// correlation id, kept until that caller collects them; ids unique.
pub struct PendingReplies {
    entries: Vec<(String, Reply)>,
}

impl PendingReplies {
    /// The stored pairs of correlation id and outcome, in arrival
    /// order.
    pub closed spec fn table(self) -> Seq<(Seq<char>, ReplyModel)> {
        Seq::new(self.entries@.len(), |i: int| (self.entries@[i].0@, self.entries@[i].1.model()))
    }

    /// Each id is stored at most once.
    pub closed spec fn inv(self) -> bool {
        forall|i: int, j: int|
            0 <= i < j < self.table().len() ==> self.table()[i].0 != self.table()[j].0
    }

    /// A fresh, empty table.
    pub fn new() -> (r: Self)
        ensures
            r.table() == Seq::<(Seq<char>, ReplyModel)>::empty(),
            r.inv(),
    {
        let r = PendingReplies { entries: Vec::new() };
        proof {
            assert(r.table() =~= Seq::<(Seq<char>, ReplyModel)>::empty());
        }
        r
    }

    /// Stores an outcome under its correlation id, replacing any
    /// outcome already stored there; other ids are untouched.
    #[verifier::loop_isolation(false)]
    pub fn store(&mut self, id: String, outcome: Reply)
        requires
            old(self).inv(),
        ensures
            final(self).inv(),
            outcome_for(final(self).table(), id@) == Some(outcome.model()),
            forall|k: Seq<char>|
                k != id@ ==> outcome_for(final(self).table(), k) == outcome_for(
                    old(self).table(),
                    k,
                ),
    {
        broadcast use vstd::std_specs::vec::group_vec_axioms, vstd::seq::group_seq_axioms;

        let ghost t0 = self.table();
        let n = self.entries.len();
        let mut j: usize = 0;
        while j < n
            invariant
                j <= n,
                n == self.entries@.len(),
                self == old(self),
                forall|i: int| 0 <= i < j ==> self.table()[i].0 != id@,
            decreases n - j,
        {
            if self.entries[j].0 == id {
                let ghost jj = j as int;
                self.entries.remove(j);
                self.entries.insert(j, (id, outcome));
                proof {
                    let t1 = self.table();
                    assert(t1 =~= t0.update(jj, (t0[jj].0, t1[jj].1)));
                    lemma_outcome_found(t1, t0[jj].0, jj);
                    assert forall|k: Seq<char>|
                        k != t0[jj].0 implies outcome_for(t1, k) == outcome_for(t0, k) by {
                        lemma_outcome_other(t0, t1, t0[jj].0, k);
                    }
                }
                return ;
            }
            j += 1;
        }
        self.entries.push((id, outcome));
        proof {
            let t1 = self.table();
            assert(t1 =~= t0.push((t1[t0.len() as int].0, t1[t0.len() as int].1)));
            lemma_outcome_found(t1, t1[t0.len() as int].0, t0.len() as int);
            assert forall|k: Seq<char>|
                k != t1[t0.len() as int].0 implies outcome_for(t1, k) == outcome_for(t0, k) by {
                if outcome_for(t0, k) is Some || outcome_for(t1, k) is Some {
                    if exists|i: int| 0 <= i < t0.len() && t0[i].0 == k {
                        let i2 = choose|i: int| 0 <= i < t0.len() && t0[i].0 == k;
                        let i3 = choose|i: int|
                            0 <= i <= i2 && t0[i].0 == k && forall|w: int|
                                0 <= w < i ==> t0[w].0 != k;
                        assert(exists|i: int|
                            0 <= i <= i2 && t0[i].0 == k && forall|w: int|
                                0 <= w < i ==> t0[w].0 != k) by {
                            lemma_first_witness(t0, k, i2);
                        }
                        lemma_outcome_found(t0, k, i3);
                        lemma_outcome_found(t1, k, i3);
                    } else {
                        assert(forall|i: int| 0 <= i < t0.len() ==> t0[i].0 != k);
                        lemma_outcome_absent(t0, k);
                        assert(forall|i: int| 0 <= i < t1.len() ==> t1[i].0 != k);
                        lemma_outcome_absent(t1, k);
                    }
                }
            }
        }
    }

    /// Hands out and removes the outcome stored under the id, if one
    /// is there; other ids are untouched.
    #[verifier::loop_isolation(false)]
    pub fn take(&mut self, id: &str) -> (r: Option<Reply>)
        requires
            old(self).inv(),
        ensures
            final(self).inv(),
            (match r {
                Some(rep) => outcome_for(old(self).table(), id@) == Some(rep.model())
                    && outcome_for(final(self).table(), id@) == None::<ReplyModel>
                    && (forall|k: Seq<char>|
                    k != id@ ==> outcome_for(final(self).table(), k) == outcome_for(
                        old(self).table(),
                        k,
                    )),
                None => outcome_for(old(self).table(), id@) == None::<ReplyModel>
                    && final(self).table() == old(self).table(),
            }),
    {
        broadcast use vstd::std_specs::vec::group_vec_axioms, vstd::seq::group_seq_axioms;

        let ghost t0 = self.table();
        let owned: String = id.to_owned();
        let n = self.entries.len();
        let mut j: usize = 0;
        while j < n
            invariant
                j <= n,
                n == self.entries@.len(),
                self == old(self),
                forall|i: int| 0 <= i < j ==> self.table()[i].0 != id@,
            decreases n - j,
        {
            if self.entries[j].0 == owned {
                let ghost jj = j as int;
                let pair = self.entries.remove(j);
                proof {
                    let t1 = self.table();
                    assert(t1 =~= t0.remove(jj));
                    lemma_outcome_found(t0, id@, jj);
                    assert(forall|i: int| 0 <= i < t1.len() ==> #[trigger] t1[i].0 != id@);
                    lemma_outcome_absent(t1, id@);
                    assert forall|k: Seq<char>|
                        k != id@ implies outcome_for(t1, k) == outcome_for(t0, k) by {
                        if exists|i: int| 0 <= i < t0.len() && t0[i].0 == k {
                            let i2 = choose|i: int| 0 <= i < t0.len() && t0[i].0 == k;
                            assert(forall|i: int|
                                0 <= i < t0.len() && i != i2 ==> t0[i].0 != k);
                            lemma_outcome_found(t0, k, i2);
                            let i3 = if i2 < jj {
                                i2
                            } else {
                                i2 - 1
                            };
                            assert(t1[i3] == t0[i2]);
                            assert(forall|i: int| 0 <= i < i3 ==> t1[i].0 != k);
                            lemma_outcome_found(t1, k, i3);
                        } else {
                            assert(forall|i: int| 0 <= i < t0.len() ==> t0[i].0 != k);
                            lemma_outcome_absent(t0, k);
                            assert(forall|i: int| 0 <= i < t1.len() ==> #[trigger] t1[i].0 != k);
                            lemma_outcome_absent(t1, k);
                        }
                    }
                }
                return Some(pair.1);
            }
            j += 1;
        }
        proof {
            lemma_outcome_absent(t0, id@);
        }
        None
    }
}

/// Ahead of any occurrence of an id there is a first one.
proof fn lemma_first_witness(t: Seq<(Seq<char>, ReplyModel)>, k: Seq<char>, i2: int)
    requires
        0 <= i2 < t.len(),
        t[i2].0 == k,
    ensures
        exists|i: int|
            0 <= i <= i2 && t[i].0 == k && forall|w: int| 0 <= w < i ==> t[w].0 != k,
    decreases i2,
{
    if forall|w: int| 0 <= w < i2 ==> t[w].0 != k {
        assert(0 <= i2 <= i2 && t[i2].0 == k && forall|w: int| 0 <= w < i2 ==> t[w].0 != k);
    } else {
        let i1 = choose|w: int| 0 <= w < i2 && t[w].0 == k;
        lemma_first_witness(t, k, i1);
        let i3 = choose|i: int|
            0 <= i <= i1 && t[i].0 == k && forall|w: int| 0 <= w < i ==> t[w].0 != k;
        assert(0 <= i3 <= i2 && t[i3].0 == k && forall|w: int| 0 <= w < i3 ==> t[w].0 != k);
    }
}

/// Builds the request frame for one outbound request: a map with the
/// frame classifier, the static credential, the fresh correlation id,
/// the request-kind code and the per-request arguments, in that order.
pub fn build_request(api_key: &str, request_id: &str, command: Request, params: CdcDict) -> (r:
    CdcValue)
    ensures
        r.model() == CdcModel::MAP(
            seq![
                ("type"@, CdcModel::STRING("request"@)),
                ("apikey"@, CdcModel::STRING(api_key@)),
                ("id"@, CdcModel::STRING(request_id@)),
                ("value"@, CdcModel::INTEGER(command.code_spec())),
                ("params"@, CdcModel::MAP(model_pairs(params@))),
            ],
        ),
{
    broadcast use vstd::std_specs::vec::group_vec_axioms, vstd::seq::group_seq_axioms;

    let mut map: CdcDict = Vec::new();
    map.push(("type".to_owned(), CdcValue::STRING("request".to_owned())));
    map.push(("apikey".to_owned(), CdcValue::STRING(api_key.to_owned())));
    map.push(("id".to_owned(), CdcValue::STRING(request_id.to_owned())));
    map.push(("value".to_owned(), CdcValue::INTEGER(command.code())));
    map.push(("params".to_owned(), CdcValue::MAP(params)));
    proof {
        lemma_model_pairs(map@);
        assert(model_pairs(map@) =~= seq![
            ("type"@, CdcModel::STRING("request"@)),
            ("apikey"@, CdcModel::STRING(api_key@)),
            ("id"@, CdcModel::STRING(request_id@)),
            ("value"@, CdcModel::INTEGER(command.code_spec())),
            ("params"@, CdcModel::MAP(model_pairs(map@[4].1->MAP_0@))),
        ]);
    }
    CdcValue::MAP(map)
}

/// The parameters of a registration request: the interpreter identity
/// and an identifying label for the caller.
pub fn register_params(interpreter_id: &str, filename: &str) -> (r: CdcDict)
    ensures
        model_pairs(r@) == seq![
            ("id"@, CdcModel::STRING(interpreter_id@)),
            ("file"@, CdcModel::STRING(filename@)),
        ],
{
    broadcast use vstd::std_specs::vec::group_vec_axioms, vstd::seq::group_seq_axioms;

    let mut params: CdcDict = Vec::new();
    params.push(("id".to_owned(), CdcValue::STRING(interpreter_id.to_owned())));
    params.push(("file".to_owned(), CdcValue::STRING(filename.to_owned())));
    proof {
        lemma_model_pairs(params@);
        assert(model_pairs(params@) =~= seq![
            ("id"@, CdcModel::STRING(interpreter_id@)),
            ("file"@, CdcModel::STRING(filename@)),
        ]);
    }
    params
}

/// The parameters of a command request: the command name with its
/// positional and keyword arguments.
pub fn command_params(command_name: &str, args: CdcList, kwargs: CdcDict) -> (r: CdcDict)
    ensures
        model_pairs(r@) == seq![
            ("command"@, CdcModel::STRING(command_name@)),
            ("args"@, CdcModel::LIST(model_seq(args@))),
            ("kwargs"@, CdcModel::MAP(model_pairs(kwargs@))),
        ],
{
    broadcast use vstd::std_specs::vec::group_vec_axioms, vstd::seq::group_seq_axioms;

    let ghost argsm = model_seq(args@);
    let ghost kwargsm = model_pairs(kwargs@);
    let mut params: CdcDict = Vec::new();
    params.push(("command".to_owned(), CdcValue::STRING(command_name.to_owned())));
    params.push(("args".to_owned(), CdcValue::LIST(args)));
    params.push(("kwargs".to_owned(), CdcValue::MAP(kwargs)));
    proof {
        lemma_model_pairs(params@);
        assert(model_pairs(params@) =~= seq![
            ("command"@, CdcModel::STRING(command_name@)),
            ("args"@, CdcModel::LIST(argsm)),
            ("kwargs"@, CdcModel::MAP(kwargsm)),
        ]);
    }
    params
}

/// The parameters of a translation request: the text and the optional
/// translation id, an empty string where none is given.
pub fn tr_params(text: &str, id: Option<&str>) -> (r: CdcDict)
    ensures
        model_pairs(r@) == seq![
            ("text"@, CdcModel::STRING(text@)),
            (
                "id"@,
                CdcModel::STRING(
                    match id {
                        Some(s) => s@,
                        None => ""@,
                    },
                ),
            ),
        ],
{
    broadcast use vstd::std_specs::vec::group_vec_axioms, vstd::seq::group_seq_axioms;

    let id_text: String = match id {
        Some(s) => s.to_owned(),
        None => "".to_owned(),
    };
    let ghost idv = id_text@;
    let mut params: CdcDict = Vec::new();
    params.push(("text".to_owned(), CdcValue::STRING(text.to_owned())));
    params.push(("id".to_owned(), CdcValue::STRING(id_text)));
    proof {
        lemma_model_pairs(params@);
        assert(model_pairs(params@) =~= seq![
            ("text"@, CdcModel::STRING(text@)),
            ("id"@, CdcModel::STRING(idv)),
        ]);
    }
    params
}

/// The translated text drawn from a translation request's outcome.
/// The outcome is the answer to a request built with
/// [`tr_params`]`(text, id)`; `None` stands for a missing connection.
/// The original text comes back wherever no translation is available:
/// no connection, a failed request, or a reply without a string under
/// the translation key.
pub fn tr(text: &str, id: Option<&str>, outcome: Option<Result<CdcValue, ConnectionError>>) -> (r:
    String)
    ensures
        r@ == (match outcome {
            Some(Ok(v)) => (match v.model() {
                CdcModel::MAP(ps) => {
                    if has_key(ps, "translation"@) && lookup(ps, "translation"@) is STRING {
                        lookup(ps, "translation"@)->STRING_0
                    } else {
                        text@
                    }
                },
                _ => text@,
            }),
            _ => text@,
        }),
{
    match outcome {
        Some(Ok(CdcValue::MAP(mut ps))) => {
            match take_entry(&mut ps, &"translation".to_owned()) {
                Some(CdcValue::STRING(s)) => s,
                _ => text.to_owned(),
            }
        },
        _ => text.to_owned(),
    }
}

/// A fresh correlation id for one request, in the hyphenated
/// identifier form: 36 characters with hyphens after the 8th, 12th,
/// 16th and 20th hexadecimal digit.
pub fn fresh_request_id() -> (r: String)
    ensures
        r@.len() == 36,
        r@[8] == '-' && r@[13] == '-' && r@[18] == '-' && r@[23] == '-',
{
    new_uuid_string()
}

/// Relies on `uuid::Uuid::new_v4` and its display form: a fresh random
/// identifier rendered as 36 characters, hexadecimal digits with
/// hyphens at the four positions the hyphenated layout fixes.
#[verifier::external_body]
fn new_uuid_string() -> (r: String)
    ensures
        r@.len() == 36,
        r@[8] == '-' && r@[13] == '-' && r@[18] == '-' && r@[23] == '-',
{
    uuid::Uuid::new_v4().to_string()
}

} // verus!
