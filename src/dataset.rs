use crate::cell::share;
use std::sync::Arc;
use vstd::prelude::*;

verus! {

/// A dataset held in memory: inputs and their labels, handed out in batches.
pub struct SimpleDataset<T> {
    pub inputs: Vec<Arc<T>>,
    pub labels: Vec<Arc<T>>,
    /// Number of samples.
    pub size: usize,
    /// Number of samples per batch; the last batch may hold fewer.
    pub batch_size: usize,
}

/// A source of samples and labels, read in batches.
pub trait Dataset: Sized {
    type DataType;
    type BatchType;

    fn iter(&self) -> DatasetIterator<'_, Self>;

    fn get_inputs(&self) -> &Vec<Arc<Self::DataType>>;

    fn get_labels(&self) -> &Vec<Arc<Self::DataType>>;

    fn get_size(&self) -> usize;

    fn get_batch_size(&self) -> usize;
}

/// A walk over a dataset's batches, from `index` on.
pub struct DatasetIterator<'a, T: Dataset> {
    pub dataset: &'a T,
    pub index: usize,
}

impl<T> SimpleDataset<T> {
    /// Every sample has a label: both lists hold at least `size` items.
    pub open spec fn wf(&self) -> bool {
        self.size <= self.inputs@.len() && self.size <= self.labels@.len()
    }
}

impl<T> Dataset for SimpleDataset<T> {
    type DataType = T;
    type BatchType = Vec<Arc<T>>;

    fn iter(&self) -> (r: DatasetIterator<'_, Self>)
        ensures
            r.dataset == self,
            r.index == 0,
    {
        DatasetIterator { dataset: self, index: 0 }
    }

    fn get_inputs(&self) -> (r: &Vec<Arc<T>>)
        ensures
            r == &self.inputs,
    {
        &self.inputs
    }

    fn get_labels(&self) -> (r: &Vec<Arc<T>>)
        ensures
            r == &self.labels,
    {
        &self.labels
    }

    fn get_size(&self) -> (r: usize)
        ensures
            r == self.size,
    {
        self.size
    }

    fn get_batch_size(&self) -> (r: usize)
        ensures
            r == self.batch_size,
    {
        self.batch_size
    }
}

/// Where a centred `width` x `height` crop of a `w` x `h` image starts.
pub fn crop_offsets(w: u32, h: u32, width: u32, height: u32) -> (r: (u32, u32))
    requires
        width <= w,
        height <= h,
    ensures
        r.0 == (w - width) / 2,
        r.1 == (h - height) / 2,
{
    ((w - width) / 2, (h - height) / 2)
}

/// The end of the batch that starts at `index`.
pub open spec fn batch_end(index: int, batch_size: int, size: int) -> int {
    if index + batch_size < size {
        index + batch_size
    } else {
        size
    }
}

/// The items `from..to` of `v`, sharing each item.
fn shared_range<T>(v: &Vec<Arc<T>>, from: usize, to: usize) -> (r: Vec<Arc<T>>)
    requires
        from <= to <= v@.len(),
    ensures
        r@ == v@.subrange(from as int, to as int),
{
    let mut out: Vec<Arc<T>> = Vec::new();
    let mut j: usize = from;
    while j < to
        invariant
            from <= j <= to <= v@.len(),
            out@ == v@.subrange(from as int, j as int),
        decreases to - j,
    {
        out.push(share(&v[j]));
        assert(out@ =~= v@.subrange(from as int, j + 1));
        j = j + 1;
    }
    out
}

impl<'a, T> DatasetIterator<'a, SimpleDataset<T>> {
    /// The next batch of inputs and labels, or `None` once every sample has been handed out.
    pub fn next(&mut self) -> (r: Option<(Vec<Arc<T>>, Vec<Arc<T>>)>)
        requires
            old(self).dataset.wf(),
        ensures
            final(self).dataset == old(self).dataset,
            ({
                let d = old(self).dataset;
                let i = old(self).index as int;
                let end = batch_end(i, d.batch_size as int, d.size as int);
                if i >= d.size {
                    r.is_none() && final(self).index == old(self).index
                } else {
                    &&& r matches Some(b)
                    &&& b.0@ == d.inputs@.subrange(i, end)
                    &&& b.1@ == d.labels@.subrange(i, end)
                    &&& final(self).index == end
                }
            }),
    {
        let size = self.dataset.size;
        if self.index >= size {
            return None;
        }
        let end = if self.dataset.batch_size < size - self.index {
            self.index + self.dataset.batch_size
        } else {
            size
        };
        let batch = shared_range(&self.dataset.inputs, self.index, end);
        let batch_labels = shared_range(&self.dataset.labels, self.index, end);
        self.index = end;
        Some((batch, batch_labels))
    }
}

} // verus!
