//! What is recorded of a segment: how many documents it holds, and how many
//! of them are deleted.

use vstd::prelude::*;

verus! {

/// The name of a segment.
#[derive(Clone, Copy, Debug, PartialEq, Eq, Hash, Structural)]
pub struct SegmentId {
    pub uuid: u128,
}

/// The deletes that were applied to a segment.
#[derive(Clone, Copy, Debug, PartialEq, Eq, Structural)]
struct DeleteMeta {
    num_deleted_docs: u32,
    opstamp: u64,
}

/// What is known of a segment without reading it: its name, the number of
/// documents that it was built with, and the deletes that were applied to
/// it since.
#[derive(Debug)]
pub struct SegmentMeta {
    segment_id: SegmentId,
    max_doc: u32,
    deletes: Option<DeleteMeta>,
}

impl Clone for SegmentMeta {
    /// A copy of the meta.
    fn clone(&self) -> (meta: SegmentMeta)
        ensures
            meta == *self,
    {
        SegmentMeta { segment_id: self.segment_id, max_doc: self.max_doc, deletes: self.deletes }
    }
}

impl SegmentMeta {
    /// The name of the segment.
    pub closed spec fn spec_id(&self) -> SegmentId {
        self.segment_id
    }

    /// The highest doc id + 1.
    pub closed spec fn spec_max_doc(&self) -> u32 {
        self.max_doc
    }

    /// The number of deleted documents: 0 where no delete was applied.
    pub closed spec fn spec_num_deleted_docs(&self) -> u32 {
        match self.deletes {
            Some(delete_meta) => delete_meta.num_deleted_docs,
            None => 0,
        }
    }

    /// The opstamp of the last delete that was applied, if any was.
    pub closed spec fn spec_delete_opstamp(&self) -> Option<u64> {
        match self.deletes {
            Some(delete_meta) => Some(delete_meta.opstamp),
            None => None,
        }
    }

    /// No more documents are deleted than the segment holds.
    pub open spec fn wf(&self) -> bool {
        self.spec_num_deleted_docs() <= self.spec_max_doc()
    }

    /// Where no delete was applied, no document is deleted.
    pub proof fn lemma_no_deletes(&self)
        ensures
            self.spec_delete_opstamp() is None ==> self.spec_num_deleted_docs() == 0,
    {
    }

    /// The meta of a segment with no documents and no deletes.
    pub fn new(segment_id: SegmentId) -> (meta: SegmentMeta)
        ensures
            meta.spec_id() == segment_id,
            meta.spec_max_doc() == 0,
            meta.spec_num_deleted_docs() == 0,
            meta.spec_delete_opstamp() is None,
            meta.wf(),
    {
        SegmentMeta { segment_id, max_doc: 0, deletes: None }
    }

    /// The name of the segment.
    pub fn id(&self) -> (id: SegmentId)
        ensures
            id == self.spec_id(),
    {
        self.segment_id
    }

    /// The number of deleted documents, 0 where no delete was applied.
    pub fn num_deleted_docs(&self) -> (n: u32)
        ensures
            n == self.spec_num_deleted_docs(),
            self.spec_delete_opstamp() is None ==> n == 0,
    {
        match &self.deletes {
            Some(delete_meta) => delete_meta.num_deleted_docs,
            None => 0u32,
        }
    }

    /// The highest doc id + 1: the number of documents that the segment
    /// was built with. Their doc ids are `0..max_doc`, the deleted ones
    /// among them.
    pub fn max_doc(&self) -> (n: u32)
        ensures
            n == self.spec_max_doc(),
    {
        self.max_doc
    }

    /// The number of documents that are not deleted.
    pub fn num_docs(&self) -> (n: u32)
        requires
            self.wf(),
        ensures
            n == self.spec_max_doc() - self.spec_num_deleted_docs(),
            n <= self.spec_max_doc(),
            self.spec_delete_opstamp() is None ==> n == self.spec_max_doc(),
    {
        self.max_doc() - self.num_deleted_docs()
    }

    /// The opstamp of the last delete that was applied to the segment, if
    /// any was.
    pub fn delete_opstamp(&self) -> (opstamp: Option<u64>)
        ensures
            opstamp == self.spec_delete_opstamp(),
    {
        match &self.deletes {
            Some(delete_meta) => Some(delete_meta.opstamp),
            None => None,
        }
    }

    /// Whether deletes were applied to the segment.
    pub fn has_deletes(&self) -> (b: bool)
        ensures
            b == self.spec_delete_opstamp().is_some(),
            !b ==> self.spec_num_deleted_docs() == 0,
    {
        self.deletes.is_some()
    }

    /// Records the highest doc id + 1. It may not fall below the number of
    /// deleted documents.
    pub fn set_max_doc(&mut self, max_doc: u32)
        requires
            old(self).spec_num_deleted_docs() <= max_doc,
        ensures
            final(self).spec_max_doc() == max_doc,
            final(self).spec_id() == old(self).spec_id(),
            final(self).spec_num_deleted_docs() == old(self).spec_num_deleted_docs(),
            final(self).spec_delete_opstamp() == old(self).spec_delete_opstamp(),
            final(self).wf(),
    {
        self.max_doc = max_doc;
    }

    /// Records the deletes that were applied up to `opstamp`. No more
    /// documents can be deleted than the segment holds, and the opstamp
    /// never decreases from one application of deletes to the next.
    pub fn set_delete_meta(&mut self, num_deleted_docs: u32, opstamp: u64)
        requires
            num_deleted_docs <= old(self).spec_max_doc(),
            old(self).spec_delete_opstamp() matches Some(before) ==> before <= opstamp,
        ensures
            final(self).spec_num_deleted_docs() == num_deleted_docs,
            final(self).spec_delete_opstamp() == Some(opstamp),
            final(self).spec_id() == old(self).spec_id(),
            final(self).spec_max_doc() == old(self).spec_max_doc(),
            final(self).wf(),
    {
        self.deletes = Some(DeleteMeta { num_deleted_docs, opstamp });
    }
}

} // verus!
