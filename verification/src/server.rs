//! The persistence service's verified core.
//!
//! The service keeps each record under its own key — the decimal string of
//! the record's id — in a key-value store that has no native "list all".
//! What can be decided without the store lives here: routing a request,
//! building the key/value pair a store or delete writes, and the
//! cursor-driven traversal that accumulates a complete listing from the
//! batches a keyspace scan hands back. The surrounding process performs the
//! actual store round-trips and feeds each batch of fetched values into the
//! `Traversal`.
use vstd::prelude::*;

use crate::ToDo;
use crate::codec::dec_bytes;
use crate::codec::encode_todo;
use crate::codec::item_ok;
use crate::codec::items_of;
use crate::codec::lemma_item_matches_shadow;
use crate::codec::lemma_todo_json_round_trip;
use crate::codec::spec_parse_todo;
use crate::codec::todo_item;
use crate::codec::todo_json;
use crate::codec::todo_key;
use crate::codec::parse_todo;
use vstd::string::StrSliceExecFns;

verus! {

/// The store this service persists to, and the address it listens on.
pub const STORE_ADDRESS: &'static str = "redis://127.0.0.1";

pub const LISTEN_ADDRESS: &'static str = "127.0.0.1:3000";

pub const UNABLE_TO_CONNECT: &'static str = "Unable to connect to Redis";

pub const FAILED_TO_STORE_DATA: &'static str = "Failed to store data";

pub const FAILED_TO_DELETE_DATA: &'static str = "Failed to delete data";

pub const FAILED_TO_RETRIEVE_DATA: &'static str = "Failed to retireve data";

/// The closed kinds of failure the service reports.
#[derive(Debug, Clone, PartialEq, Eq, Structural)]
pub enum ErrorKind {
    ConnectionError,
    SerializationError,
    DeserializationError,
    NotFoundRoute,
    ValidationError,
}

/// A failure: its machine-readable kind and a human-readable detail.
#[derive(Debug)]
pub struct ServiceError {
    pub kind: ErrorKind,
    pub detail: String,
}

impl ServiceError {
    pub fn new(kind: ErrorKind, detail: &str) -> (r: Self)
        ensures
            r.kind == kind,
            r.detail@ == detail@,
    {
        ServiceError { kind, detail: detail.to_owned() }
    }
}

/// Where a request lands.
#[derive(Debug, PartialEq, Eq, Structural)]
pub enum Route {
    StoreTodo,
    DeleteTodo,
    GetTodo,
    NotFound,
}

/// The request contract: store and delete are posts, the listing is a get,
/// and everything else is unrouted.
pub open spec fn route_of(method: Seq<char>, path: Seq<char>) -> Route {
    if method == "POST"@ && path == "/store_todo"@ {
        Route::StoreTodo
    } else if method == "POST"@ && path == "/delete_todo"@ {
        Route::DeleteTodo
    } else if method == "GET"@ && path == "/get_todo"@ {
        Route::GetTodo
    } else {
        Route::NotFound
    }
}

fn bytes_eq(a: &Vec<u8>, b: &Vec<u8>) -> (r: bool)
    ensures
        r == (a@ == b@),
{
    if a.len() != b.len() {
        return false;
    }
    let mut k: usize = 0;
    while k < a.len()
        invariant
            k <= a@.len(),
            a@.len() == b@.len(),
            forall|m: int| 0 <= m < k ==> a@[m] == b@[m],
        decreases a@.len() - k,
    {
        if a[k] != b[k] {
            return false;
        }
        k = k + 1;
    }
    proof {
        assert(a@ =~= b@);
    }
    true
}

/// Whether two strings spell the same characters, decided on their bytes.
pub fn str_eq(a: &str, b: &str) -> (r: bool)
    ensures
        r == (a@ == b@),
{
    let av = a.as_bytes_vec();
    let bv = b.as_bytes_vec();
    let r = bytes_eq(&av, &bv);
    proof {
        if av@ == bv@ {
            vstd::utf8::encode_utf8_decode_utf8(a@);
            vstd::utf8::encode_utf8_decode_utf8(b@);
        }
    }
    r
}

/// Routes one request.
pub fn match_route(method: &str, path: &str) -> (r: Route)
    ensures
        r == route_of(method@, path@),
{
    let post = str_eq(method, "POST");
    if post && str_eq(path, "/store_todo") {
        Route::StoreTodo
    } else if post && str_eq(path, "/delete_todo") {
        Route::DeleteTodo
    } else if str_eq(method, "GET") && str_eq(path, "/get_todo") {
        Route::GetTodo
    } else {
        Route::NotFound
    }
}

/// What a store (or update: both write) sends to the key-value store: the
/// record's key and its serialized form, overwriting whatever the key held.
pub fn store_command(t: &ToDo) -> (r: (Vec<u8>, Vec<u8>))
    ensures
        r.0@ == dec_bytes(t.id as nat),
        r.1@ == todo_json(*t),
{
    (todo_key(t.id), encode_todo(t))
}

/// What a delete removes: the record's key alone.
pub fn delete_command(t: &ToDo) -> (r: Vec<u8>)
    ensures
        r@ == dec_bytes(t.id as nat),
{
    todo_key(t.id)
}

/// An item list holds an item of this id.
pub open spec fn items_has_id(items: Seq<(nat, Seq<u8>, Seq<u8>)>, id: nat) -> bool {
    exists|k: int| 0 <= k < items.len() && (#[trigger] items[k]).0 == id
}

/// A record list holds a record of this id.
pub open spec fn seq_has_id(ts: Seq<ToDo>, id: nat) -> bool {
    exists|k: int| 0 <= k < ts.len() && (#[trigger] ts[k]).id as nat == id
}

/// What absorbing a run of fetched values does to the accumulated items:
/// each value must decode as a record that a `ToDo` can be built from — a
/// single bad value fails the whole traversal — and a record whose id was
/// already accumulated is dropped, so a key revisited by the scan cannot
/// duplicate a record.
pub open spec fn absorb_items(
    acc: Seq<(nat, Seq<u8>, Seq<u8>)>,
    values: Seq<Seq<u8>>,
) -> Option<Seq<(nat, Seq<u8>, Seq<u8>)>>
    decreases values.len(),
{
    if values.len() == 0 {
        Some(acc)
    } else {
        match spec_parse_todo(values[0]) {
            None => None,
            Some(p) => if !item_ok(p) {
                None
            } else if items_has_id(acc, p.0) {
                absorb_items(acc, values.drop_first())
            } else {
                absorb_items(acc.push(p), values.drop_first())
            },
        }
    }
}

/// The byte strings a batch of fetched values spells.
pub open spec fn deep_values(vs: Seq<Vec<u8>>) -> Seq<Seq<u8>> {
    Seq::new(vs.len(), |k: int| vs[k]@)
}

/// Whether a record of this id was already accumulated.
fn contains_id(acc: &Vec<ToDo>, id: usize) -> (r: bool)
    ensures
        r == seq_has_id(acc@, id as nat),
{
    let mut k: usize = 0;
    while k < acc.len()
        invariant
            k <= acc@.len(),
            forall|m: int| 0 <= m < k ==> (#[trigger] acc@[m]).id != id,
        decreases acc@.len() - k,
    {
        if acc[k].id == id {
            return true;
        }
        k = k + 1;
    }
    false
}

/// The state of one keyspace traversal: the records accumulated so far, and
/// whether the scan's cursor has come back to its start.
#[derive(Debug)]
pub struct Traversal {
    pub acc: Vec<ToDo>,
    pub done: bool,
}

impl Traversal {
    /// A traversal about to issue its first scan.
    pub fn new() -> (r: Self)
        ensures
            r.acc@ == Seq::<ToDo>::empty(),
            !r.done,
    {
        Traversal { acc: Vec::new(), done: false }
    }

    /// Folds one scan batch in: `values` are the fetched values of the
    /// batch's keys, `new_cursor` the store's continuation token, and zero
    /// means the keyspace has been walked once around. A value that does
    /// not decode fails the whole traversal rather than dropping a record.
    #[verifier::loop_isolation(false)]
    pub fn absorb_batch(self, new_cursor: u64, values: &Vec<Vec<u8>>) -> (r: Result<
        Traversal,
        ServiceError,
    >)
        requires
            !self.done,
        ensures
            (match absorb_items(items_of(self.acc@), deep_values(values@)) {
                Some(items) => r matches Ok(tr) && items_of(tr.acc@) == items && tr.done == (
                new_cursor == 0),
                None => (r matches Err(e) && e.kind == ErrorKind::DeserializationError),
            }),
    {
        let ghost orig = items_of(self.acc@);
        let ghost vals = deep_values(values@);
        let mut acc = self.acc;
        let mut k: usize = 0;
        proof {
            assert(vals.skip(0) =~= vals);
        }
        while k < values.len()
            invariant
                k <= values@.len(),
                (match absorb_items(items_of(acc@), vals.skip(k as int)) {
                    Some(items) => absorb_items(orig, vals) == Some::<
                        Seq<(nat, Seq<u8>, Seq<u8>)>,
                    >(items),
                    None => absorb_items(orig, vals) is None,
                }),
            decreases values@.len() - k,
        {
            let ghost acc_old = acc@;
            proof {
                assert(vals.skip(k as int)[0] == values@[k as int]@);
                assert(vals.skip(k as int).drop_first() =~= vals.skip(k as int + 1));
            }
            let parsed = parse_todo(&values[k]);
            if parsed.is_none() {
                return Err(ServiceError::new(
                    ErrorKind::DeserializationError,
                    crate::UNABLE_TO_PARSE_DATA,
                ));
            }
            let t = parsed.unwrap();
            let ghost p = spec_parse_todo(values@[k as int]@).unwrap();
            proof {
                assert(spec_parse_todo(vals.skip(k as int)[0]) == Some(p));
                assert(item_ok(p));
                lemma_item_matches_shadow(t, p);
            }
            if !contains_id(&acc, t.id) {
                proof {
                    assert(!items_has_id(items_of(acc_old), p.0)) by {
                        if items_has_id(items_of(acc_old), p.0) {
                            let w = choose|w: int|
                                0 <= w < items_of(acc_old).len() && (#[trigger] items_of(
                                    acc_old,
                                )[w]).0 == p.0;
                            assert(acc_old[w].id as nat == p.0);
                        }
                    }
                }
                acc.push(t);
                proof {
                    assert(items_of(acc@) =~= items_of(acc_old).push(p));
                    assert(absorb_items(items_of(acc_old), vals.skip(k as int)) == absorb_items(
                        items_of(acc@),
                        vals.skip(k as int + 1),
                    ));
                }
            } else {
                proof {
                    assert(items_has_id(items_of(acc_old), p.0)) by {
                        let w = choose|w: int|
                            0 <= w < acc_old.len() && (#[trigger] acc_old[w]).id as nat == p.0;
                        assert(items_of(acc_old)[w].0 == p.0);
                    }
                    assert(absorb_items(items_of(acc_old), vals.skip(k as int)) == absorb_items(
                        items_of(acc@),
                        vals.skip(k as int + 1),
                    ));
                }
            }
            k = k + 1;
        }
        proof {
            assert(vals.skip(vals.len() as int) =~= Seq::<Seq<u8>>::empty());
        }
        Ok(Traversal { acc, done: new_cursor == 0 })
    }
}

/// A model of the key-value store: each record's serialized bytes under
/// its numeric key. Well-formed: every stored value decodes as a record a
/// `ToDo` can be built from, stored under its own id.
pub open spec fn store_wf(m: Map<nat, Seq<u8>>) -> bool {
    forall|id: nat|
        m.dom().contains(id) ==> (match spec_parse_todo(#[trigger] m[id]) {
            Some(p) => p.0 == id && item_ok(p),
            None => false,
        })
}

/// The record item a well-formed store holds under `id`.
pub open spec fn store_item(m: Map<nat, Seq<u8>>, id: nat) -> (nat, Seq<u8>, Seq<u8>) {
    spec_parse_todo(m[id]).unwrap()
}

/// What a store or update writes: the record's bytes under its key,
/// overwriting unconditionally (last write wins).
pub open spec fn store_upsert(m: Map<nat, Seq<u8>>, t: ToDo) -> Map<nat, Seq<u8>> {
    m.insert(t.id as nat, todo_json(t))
}

/// What a delete removes: the one key of that id.
pub open spec fn store_delete(m: Map<nat, Seq<u8>>, id: nat) -> Map<nat, Seq<u8>> {
    m.remove(id)
}

/// Writing a record keeps the store well-formed, and afterwards its key
/// holds exactly that record.
pub proof fn lemma_store_upsert_wf(m: Map<nat, Seq<u8>>, t: ToDo)
    requires
        store_wf(m),
    ensures
        store_wf(store_upsert(m, t)),
        store_upsert(m, t).dom().contains(t.id as nat),
        store_item(store_upsert(m, t), t.id as nat) == todo_item(t),
        forall|id: nat|
            #[trigger] store_upsert(m, t).dom().contains(id) <==> m.dom().contains(id) || id
                == t.id as nat,
{
    lemma_todo_json_round_trip(t);
    assert(spec_parse_todo(todo_json(t)) == Some(todo_item(t)));
}

/// Removing a key keeps the store well-formed, leaves no record of that
/// id, and is a no-op when the id was absent (deletion is idempotent).
pub proof fn lemma_store_delete_wf(m: Map<nat, Seq<u8>>, id: nat)
    requires
        store_wf(m),
    ensures
        store_wf(store_delete(m, id)),
        !store_delete(m, id).dom().contains(id),
        !m.dom().contains(id) ==> store_delete(m, id) == m,
{
    if !m.dom().contains(id) {
        assert(store_delete(m, id) =~= m);
    }
}

/// Absorbing one run of values after another is absorbing their
/// concatenation: scan batches compose, so the multi-batch traversal can
/// be read as one absorption of everything the scan handed back.
pub proof fn lemma_absorb_concat(
    acc: Seq<(nat, Seq<u8>, Seq<u8>)>,
    v1: Seq<Seq<u8>>,
    v2: Seq<Seq<u8>>,
)
    ensures
        absorb_items(acc, v1 + v2) == (match absorb_items(acc, v1) {
            Some(a) => absorb_items(a, v2),
            None => None::<Seq<(nat, Seq<u8>, Seq<u8>)>>,
        }),
    decreases v1.len(),
{
    if v1.len() == 0 {
        assert(v1 + v2 =~= v2);
    } else {
        assert((v1 + v2)[0] == v1[0]);
        assert((v1 + v2).drop_first() =~= v1.drop_first() + v2);
        match spec_parse_todo(v1[0]) {
            None => {},
            Some(p) => {
                if !item_ok(p) {
                } else if items_has_id(acc, p.0) {
                    lemma_absorb_concat(acc, v1.drop_first(), v2);
                } else {
                    lemma_absorb_concat(acc.push(p), v1.drop_first(), v2);
                }
            },
        }
    }
}

/// Every value of the run was fetched from the store.
pub open spec fn values_from(m: Map<nat, Seq<u8>>, values: Seq<Seq<u8>>) -> bool {
    forall|k: int|
        0 <= k < values.len() ==> exists|id: nat|
            m.dom().contains(id) && #[trigger] values[k] == m[id]
}

/// Every stored key's value appears somewhere in the run.
pub open spec fn covers(m: Map<nat, Seq<u8>>, values: Seq<Seq<u8>>) -> bool {
    forall|id: nat|
        #[trigger] m.dom().contains(id) ==> exists|k: int|
            0 <= k < values.len() && values[k] == m[id]
}

/// No two accumulated items share an id.
pub open spec fn distinct_ids(items: Seq<(nat, Seq<u8>, Seq<u8>)>) -> bool {
    forall|a: int, b: int|
        0 <= a < b < items.len() ==> (#[trigger] items[a]).0 != (#[trigger] items[b]).0
}

/// Every accumulated item is exactly what the store holds under its id.
pub open spec fn items_from_store(
    m: Map<nat, Seq<u8>>,
    items: Seq<(nat, Seq<u8>, Seq<u8>)>,
) -> bool {
    forall|k: int|
        0 <= k < items.len() ==> m.dom().contains((#[trigger] items[k]).0) && items[k]
            == store_item(m, items[k].0)
}

/// Pushing an item adds exactly its id.
proof fn lemma_has_id_push(items: Seq<(nat, Seq<u8>, Seq<u8>)>, p: (nat, Seq<u8>, Seq<u8>), id: nat)
    ensures
        items_has_id(items.push(p), id) <==> items_has_id(items, id) || p.0 == id,
{
    if items_has_id(items, id) {
        let w = choose|w: int| 0 <= w < items.len() && (#[trigger] items[w]).0 == id;
        assert(items.push(p)[w].0 == id);
    }
    if p.0 == id {
        assert(items.push(p)[items.len() as int].0 == id);
    }
    if items_has_id(items.push(p), id) {
        let w = choose|w: int| 0 <= w < items.push(p).len() && (#[trigger] items.push(p)[w]).0 == id;
        if w < items.len() {
            assert(items[w].0 == id);
        }
    }
}

/// The generalized traversal argument: absorbing any run of fetched values
/// from a well-formed store extends a clean accumulation cleanly, and the
/// accumulated ids afterwards are exactly those before plus those fetched.
proof fn lemma_absorb_from_store_rec(
    m: Map<nat, Seq<u8>>,
    values: Seq<Seq<u8>>,
    acc: Seq<(nat, Seq<u8>, Seq<u8>)>,
)
    requires
        store_wf(m),
        values_from(m, values),
        distinct_ids(acc),
        items_from_store(m, acc),
    ensures
        (absorb_items(acc, values) matches Some(res) && distinct_ids(res) && items_from_store(
            m,
            res,
        ) && (forall|id: nat|
            #[trigger] items_has_id(res, id) <==> items_has_id(acc, id) || (m.dom().contains(id)
                && exists|k: int| 0 <= k < values.len() && values[k] == m[id]))),
    decreases values.len(),
{
    if values.len() == 0 {
        let res = absorb_items(acc, values).unwrap();
        assert(res == acc);
        assert(forall|id: nat|
            #[trigger] items_has_id(res, id) <==> items_has_id(acc, id) || (m.dom().contains(id)
                && exists|k: int| 0 <= k < values.len() && values[k] == m[id]));
    } else {
        assert(exists|id: nat| m.dom().contains(id) && #[trigger] values[0] == m[id]);
        let id0 = choose|id: nat| m.dom().contains(id) && #[trigger] values[0] == m[id];
        let p = spec_parse_todo(values[0]).unwrap();
        assert(p.0 == id0 && item_ok(p));
        // the fetched value pins its id: two keys with the same bytes would
        // both have to decode to their own id
        assert(forall|id: nat|
            m.dom().contains(id) && values[0] == m[id] ==> id == id0);
        let tail = values.drop_first();
        assert(forall|k: int| 0 <= k < tail.len() ==> #[trigger] tail[k] == values[k + 1]);
        assert(values_from(m, tail));
        if items_has_id(acc, p.0) {
            lemma_absorb_from_store_rec(m, tail, acc);
            let res = absorb_items(acc, tail).unwrap();
            assert(absorb_items(acc, values) == Some(res));
            assert forall|id: nat| #[trigger] items_has_id(res, id) <==> items_has_id(acc, id) || (
            m.dom().contains(id) && exists|k: int|
                0 <= k < values.len() && values[k] == m[id]) by {
                if m.dom().contains(id) && exists|k: int|
                    0 <= k < values.len() && values[k] == m[id] {
                    let k = choose|k: int| 0 <= k < values.len() && #[trigger] values[k] == m[id];
                    if k == 0 {
                        assert(id == id0);
                        assert(items_has_id(acc, id));
                    } else {
                        assert(tail[k - 1] == m[id]);
                    }
                }
                if m.dom().contains(id) && exists|k: int| 0 <= k < tail.len() && tail[k] == m[id] {
                    let k = choose|k: int| 0 <= k < tail.len() && #[trigger] tail[k] == m[id];
                    assert(values[k + 1] == m[id]);
                }
            }
        } else {
            assert(p == store_item(m, id0));
            let acc2 = acc.push(p);
            assert(distinct_ids(acc2)) by {
                assert(forall|w: int| 0 <= w < acc.len() ==> (#[trigger] acc[w]).0 != p.0) by {
                    assert(!items_has_id(acc, p.0));
                }
                assert(forall|w: int| 0 <= w < acc.len() ==> acc2[w] == acc[w]);
            }
            assert(items_from_store(m, acc2)) by {
                assert(forall|w: int| 0 <= w < acc.len() ==> acc2[w] == acc[w]);
                assert(acc2[acc.len() as int] == p);
            }
            lemma_absorb_from_store_rec(m, tail, acc2);
            let res = absorb_items(acc2, tail).unwrap();
            assert(absorb_items(acc, values) == Some(res));
            assert forall|id: nat| #[trigger] items_has_id(res, id) <==> items_has_id(acc, id) || (
            m.dom().contains(id) && exists|k: int|
                0 <= k < values.len() && values[k] == m[id]) by {
                lemma_has_id_push(acc, p, id);
                if m.dom().contains(id) && exists|k: int|
                    0 <= k < values.len() && values[k] == m[id] {
                    let k = choose|k: int| 0 <= k < values.len() && #[trigger] values[k] == m[id];
                    if k == 0 {
                        assert(id == id0);
                    } else {
                        assert(tail[k - 1] == m[id]);
                    }
                }
                if m.dom().contains(id) && exists|k: int| 0 <= k < tail.len() && tail[k] == m[id] {
                    let k = choose|k: int| 0 <= k < tail.len() && #[trigger] tail[k] == m[id];
                    assert(values[k + 1] == m[id]);
                }
                if p.0 == id {
                    assert(m.dom().contains(id) && values[0] == m[id]);
                }
            }
        }
    }
}

/// A complete, clean traversal lists exactly the store's records: every
/// stored id exactly once — no duplicates even when the scan revisits a
/// key — each carrying exactly the bytes stored under it, and nothing
/// else.
pub proof fn lemma_traversal_complete(m: Map<nat, Seq<u8>>, values: Seq<Seq<u8>>)
    requires
        store_wf(m),
        values_from(m, values),
        covers(m, values),
    ensures
        (absorb_items(seq![], values) matches Some(res) && distinct_ids(res) && items_from_store(
            m,
            res,
        ) && (forall|id: nat| #[trigger] items_has_id(res, id) <==> m.dom().contains(id))),
{
    lemma_absorb_from_store_rec(m, values, seq![]);
    let res = absorb_items(seq![], values).unwrap();
    assert forall|id: nat| #[trigger] items_has_id(res, id) <==> m.dom().contains(id) by {
        assert(!items_has_id(seq![], id));
        if m.dom().contains(id) {
            assert(exists|k: int| 0 <= k < values.len() && values[k] == m[id]);
        }
    }
}

/// Storing a record and then listing everything shows it: the listing
/// holds exactly one record of its id, carrying exactly the text and date
/// that were written — an update, which is the same write, replaces and
/// never duplicates.
pub proof fn lemma_store_then_list_all(m: Map<nat, Seq<u8>>, t: ToDo, values: Seq<Seq<u8>>)
    requires
        store_wf(m),
        values_from(store_upsert(m, t), values),
        covers(store_upsert(m, t), values),
    ensures
        (absorb_items(seq![], values) matches Some(res) && distinct_ids(res) && items_has_id(
            res,
            t.id as nat,
        ) && (forall|k: int|
            0 <= k < res.len() && (#[trigger] res[k]).0 == t.id as nat ==> res[k] == todo_item(
                t,
            ))),
{
    lemma_store_upsert_wf(m, t);
    lemma_traversal_complete(store_upsert(m, t), values);
}

/// Deleting an id and then listing everything shows no record of it; and
/// deleting an id the store does not hold leaves the store unchanged, so
/// deletion is idempotent.
pub proof fn lemma_delete_then_list_all(m: Map<nat, Seq<u8>>, id: nat, values: Seq<Seq<u8>>)
    requires
        store_wf(m),
        values_from(store_delete(m, id), values),
        covers(store_delete(m, id), values),
    ensures
        (absorb_items(seq![], values) matches Some(res) && !items_has_id(res, id)),
        !m.dom().contains(id) ==> store_delete(m, id) == m,
{
    lemma_store_delete_wf(m, id);
    lemma_traversal_complete(store_delete(m, id), values);
}

} // verus!
