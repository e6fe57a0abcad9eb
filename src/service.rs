//! The request interface of the store: typed requests, typed responses, and the
//! decision that each request makes against the store.
use vstd::prelude::*;
use crate::block::Block;
use crate::block_index::{
    decoded_block, locator_heights, record_by_hash, record_by_height, record_readable, tip_height,
};
use crate::column::copy_bytes;
use crate::commit::commit_ops;
use crate::db::{apply_ops, ZebraDb};
use crate::encoding::{record_hash, record_height};
use crate::error::StateError;

verus! {

/// A request to the store.
pub enum Request {
    /// Commit a block.
    AddBlock { block: Block },
    /// Get a block by its hash.
    GetBlock { hash: Vec<u8> },
    /// Get a block locator for the chain that starts at `genesis`.
    GetBlockLocator { genesis: Vec<u8> },
    /// Get the hash of the tip block.
    GetTip,
    /// Get the number of blocks above the block with this hash.
    GetDepth { hash: Vec<u8> },
}

/// A response of the store.
pub enum Response {
    /// The block with this hash was committed.
    Added { hash: Vec<u8> },
    /// The requested block's bytes.
    Block { block: Vec<u8> },
    /// The hashes of a block locator.
    BlockLocator { block_locator: Vec<Vec<u8>> },
    /// The hash of the tip block.
    Tip { hash: Vec<u8> },
    /// The number of blocks above the requested one, if it is indexed.
    Depth(Option<u32>),
}

/// The store behind its request interface.
pub struct StateService {
    db: ZebraDb,
}

impl StateService {
    /// The service is backed by a well-formed store.
    pub closed spec fn wf(&self) -> bool {
        self.db.wf()
    }

    /// The store behind the service.
    pub closed spec fn db_spec(&self) -> ZebraDb {
        self.db
    }

    /// A service over an empty store.
    pub fn new() -> (r: Self)
        ensures
            r.wf(),
            r.db_spec()@ == crate::db::empty_state(),
    {
        StateService { db: ZebraDb::new() }
    }

    /// A service over `db`.
    pub fn from_db(db: ZebraDb) -> (r: Self)
        requires
            db.wf(),
        ensures
            r.wf(),
            r.db_spec() == db,
    {
        StateService { db }
    }

    /// The store behind the service, for direct reads.
    pub fn db(&self) -> (r: &ZebraDb)
        requires
            self.wf(),
        ensures
            *r == self.db_spec(),
            r.wf(),
    {
        &self.db
    }

    /// Answers `req`. Only `AddBlock` changes the store, and only when it
    /// succeeds.
    pub fn call(&mut self, req: Request) -> (r: Result<Response, StateError>)
        requires
            old(self).wf(),
        ensures
            final(self).wf(),
            ({
                let s = old(self).db_spec()@;
                match req {
                    Request::AddBlock { block } => match commit_ops(s, block, None) {
                        Ok(ops) => final(self).db_spec()@ == apply_ops(s, ops) && (r matches Ok(
                            Response::Added { hash },
                        ) && hash@ == block.hash@),
                        Err(e) => final(self).db_spec()@ == s && r == Err::<Response, StateError>(e),
                    },
                    Request::GetBlock { hash } => final(self).db_spec()@ == s && match decoded_block(
                        record_by_hash(s, hash@),
                    ) {
                        Ok(Some(b)) => r matches Ok(Response::Block { block }) && block@ == b,
                        Ok(None) => r == Err::<Response, StateError>(StateError::NotFound),
                        Err(e) => r == Err::<Response, StateError>(e),
                    },
                    Request::GetTip => final(self).db_spec()@ == s && match tip_height(s) {
                        None => r == Err::<Response, StateError>(StateError::NotFound),
                        Some(t) => {
                            let rec = record_by_height(s, t).unwrap();
                            &&& rec.len() >= 36 ==> (r matches Ok(Response::Tip { hash }) && hash@
                                == record_hash(rec))
                            &&& rec.len() < 36 ==> r == Err::<Response, StateError>(
                                StateError::FormatError,
                            )
                        },
                    },
                    Request::GetDepth { hash } => final(self).db_spec()@ == s && match record_by_hash(
                        s,
                        hash@,
                    ) {
                        None => r matches Ok(Response::Depth(None)),
                        Some(rec) => if rec.len() < 36 {
                            r == Err::<Response, StateError>(StateError::FormatError)
                        } else {
                            match tip_height(s) {
                                Some(t) => if record_height(rec) <= t {
                                    r matches Ok(Response::Depth(Some(d))) && d == t
                                        - record_height(rec)
                                } else {
                                    r == Err::<Response, StateError>(StateError::Invariant)
                                },
                                None => r == Err::<Response, StateError>(StateError::Invariant),
                            }
                        },
                    },
                    Request::GetBlockLocator { genesis } => final(self).db_spec()@ == s && match tip_height(
                        s,
                    ) {
                        None => r matches Ok(Response::BlockLocator { block_locator }) && block_locator@.len()
                            == 1 && block_locator@[0]@ == genesis@,
                        Some(t) => {
                            let hs = locator_heights(t);
                            &&& r.is_ok() <==> forall|i: int|
                                0 <= i < hs.len() ==> #[trigger] record_readable(s, hs[i])
                            &&& r.is_ok() ==> (r matches Ok(Response::BlockLocator { block_locator })
                                && block_locator@.len() == hs.len() && forall|i: int|
                                0 <= i < hs.len() ==> #[trigger] block_locator@[i]@ == record_hash(
                                    record_by_height(s, hs[i]).unwrap(),
                                ))
                        },
                    },
                }
            }),
    {
        match req {
            Request::AddBlock { block } => {
                match self.db.write_block(&block, None) {
                    Ok(_) => Ok(Response::Added { hash: copy_bytes(&block.hash) }),
                    Err(e) => Err(e),
                }
            },
            Request::GetBlock { hash } => match self.db.get_by_hash(&hash) {
                Ok(Some(block)) => Ok(Response::Block { block }),
                Ok(None) => Err(StateError::NotFound),
                Err(e) => Err(e),
            },
            Request::GetTip => match self.db.get_tip() {
                Ok(Some(hash)) => Ok(Response::Tip { hash }),
                Ok(None) => Err(StateError::NotFound),
                Err(e) => Err(e),
            },
            Request::GetDepth { hash } => match self.db.depth(&hash) {
                Ok(d) => Ok(Response::Depth(d)),
                Err(e) => Err(e),
            },
            Request::GetBlockLocator { genesis } => match self.db.block_locator(&genesis) {
                Ok(block_locator) => Ok(Response::BlockLocator { block_locator }),
                Err(e) => Err(e),
            },
        }
    }
}

/// The tip block's bytes, asked through the request interface: the tip's hash,
/// then the block with that hash. `None` when either request fails.
pub fn initial_tip(state: &mut StateService) -> (r: Option<Vec<u8>>)
    requires
        old(state).wf(),
    ensures
        final(state).wf(),
        final(state).db_spec()@ == old(state).db_spec()@,
        ({
            let s = old(state).db_spec()@;
            match tip_height(s) {
                None => r is None,
                Some(t) => {
                    let rec = record_by_height(s, t).unwrap();
                    if rec.len() < 36 {
                        r is None
                    } else {
                        match decoded_block(record_by_hash(s, record_hash(rec))) {
                            Ok(Some(b)) => r matches Some(v) && v@ == b,
                            _ => r is None,
                        }
                    }
                },
            }
        }),
{
    let hash = match state.call(Request::GetTip) {
        Ok(Response::Tip { hash }) => hash,
        _ => return None,
    };
    match state.call(Request::GetBlock { hash }) {
        Ok(Response::Block { block }) => Some(block),
        _ => None,
    }
}

} // verus!
