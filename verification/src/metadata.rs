//! Data model of the replicated cache.
//!
//! Store names, keys, and broker addresses are byte sequences (utf-8 where
//! they came from text). A cache value is either a decoded cluster-metadata
//! snapshot or an uninterpreted blob, so that several logical stores can be
//! multiplexed over the one log topic.

use vstd::prelude::*;

verus! {

/// One topic of a monitored cluster: its name and how many partitions it has.
#[derive(Debug, PartialEq, Eq)]
pub struct TopicMetadata {
    pub name: Vec<u8>,
    pub partition_count: u32,
}

/// Ghost image of a [`TopicMetadata`].
pub struct TopicMetadataView {
    pub name: Seq<u8>,
    pub partition_count: u32,
}

impl View for TopicMetadata {
    type V = TopicMetadataView;

    open spec fn view(&self) -> TopicMetadataView {
        TopicMetadataView { name: self.name@, partition_count: self.partition_count }
    }
}

/// One cluster's administrative metadata: its broker addresses and topics,
/// as fetched from the cluster itself.
#[derive(Debug, PartialEq, Eq)]
pub struct ClusterMetadata {
    pub brokers: Vec<Vec<u8>>,
    pub topics: Vec<TopicMetadata>,
}

/// Ghost image of a [`ClusterMetadata`].
pub struct ClusterMetadataView {
    pub brokers: Seq<Seq<u8>>,
    pub topics: Seq<TopicMetadataView>,
}

impl View for ClusterMetadata {
    type V = ClusterMetadataView;

    open spec fn view(&self) -> ClusterMetadataView {
        ClusterMetadataView {
            brokers: Seq::new(self.brokers@.len(), |i: int| self.brokers@[i]@),
            topics: Seq::new(self.topics@.len(), |i: int| self.topics@[i]@),
        }
    }
}

/// A decoded cache value. The cache treats it as an owned, opaque payload:
/// metadata snapshots live in the `metadata` store, anything else rides along
/// as an uninterpreted blob.
#[derive(Debug, PartialEq, Eq)]
pub enum Value {
    Metadata(ClusterMetadata),
    Blob(Vec<u8>),
}

/// Ghost image of a [`Value`].
pub enum ValueView {
    Metadata(ClusterMetadataView),
    Blob(Seq<u8>),
}

impl View for Value {
    type V = ValueView;

    open spec fn view(&self) -> ValueView {
        match self {
            Value::Metadata(m) => ValueView::Metadata(m@),
            Value::Blob(b) => ValueView::Blob(b@),
        }
    }
}

/// True when `a` and `b` hold the same bytes.
pub fn bytes_eq(a: &Vec<u8>, b: &Vec<u8>) -> (r: bool)
    ensures
        r == (a@ == b@),
{
    if a.len() != b.len() {
        return false;
    }
    let mut i: usize = 0;
    while i < a.len()
        invariant
            i <= a@.len(),
            a@.len() == b@.len(),
            forall|j: int| 0 <= j < i ==> a@[j] == b@[j],
        decreases a@.len() - i,
    {
        if a[i] != b[i] {
            return false;
        }
        i = i + 1;
    }
    proof {
        assert(a@ =~= b@);
    }
    true
}

/// Byte-for-byte copy of a byte vector.
pub fn clone_bytes(b: &Vec<u8>) -> (r: Vec<u8>)
    ensures
        r@ == b@,
{
    let mut r: Vec<u8> = Vec::new();
    let mut i: usize = 0;
    while i < b.len()
        invariant
            i <= b@.len(),
            r@ == b@.subrange(0, i as int),
        decreases b@.len() - i,
    {
        r.push(b[i]);
        i = i + 1;
        assert(r@ =~= b@.subrange(0, i as int));
    }
    assert(r@ =~= b@);
    r
}

impl Clone for TopicMetadata {
    fn clone(&self) -> (r: Self)
        ensures
            r@ == self@,
    {
        TopicMetadata { name: clone_bytes(&self.name), partition_count: self.partition_count }
    }
}

impl Clone for ClusterMetadata {
    fn clone(&self) -> (r: Self)
        ensures
            r@ == self@,
    {
        let mut brokers: Vec<Vec<u8>> = Vec::new();
        let mut i: usize = 0;
        while i < self.brokers.len()
            invariant
                i <= self.brokers@.len(),
                brokers@.len() == i,
                forall|j: int| 0 <= j < i ==> #[trigger] brokers@[j]@ == self.brokers@[j]@,
            decreases self.brokers@.len() - i,
        {
            brokers.push(clone_bytes(&self.brokers[i]));
            i = i + 1;
        }
        let mut topics: Vec<TopicMetadata> = Vec::new();
        let mut i: usize = 0;
        while i < self.topics.len()
            invariant
                i <= self.topics@.len(),
                topics@.len() == i,
                forall|j: int| 0 <= j < i ==> #[trigger] topics@[j]@ == self.topics@[j]@,
            decreases self.topics@.len() - i,
        {
            topics.push(self.topics[i].clone());
            i = i + 1;
        }
        let r = ClusterMetadata { brokers, topics };
        proof {
            assert(r@.brokers =~= self@.brokers);
            assert(r@.topics =~= self@.topics);
        }
        r
    }
}

impl Clone for Value {
    fn clone(&self) -> (r: Self)
        ensures
            r@ == self@,
    {
        match self {
            Value::Metadata(m) => Value::Metadata(m.clone()),
            Value::Blob(b) => Value::Blob(clone_bytes(b)),
        }
    }
}

} // verus!
