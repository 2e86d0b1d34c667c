//! A batch of boolean feature columns with one sign label per row.

use vstd::prelude::*;

verus! {

/// Feature-major flat storage of a batch.
#[derive(Clone, Copy)]
pub struct FlatBatch<'a> {
    pub features: &'a [bool],
    pub batch_size: usize,
    pub feature_count: usize,
}

/// Feature columns (either separate slices or one feature-major flat buffer)
/// and the sign label of each row.
#[derive(Clone, Copy)]
pub struct SignBatch<'a> {
    pub feature_columns: &'a [&'a [bool]],
    pub signs: &'a [bool],
    pub flat: Option<FlatBatch<'a>>,
}

impl<'a> SignBatch<'a> {
    /// Number of feature columns.
    pub open spec fn spec_feature_count(self) -> int {
        match self.flat {
            Some(flat) => flat.feature_count as int,
            None => self.feature_columns@.len() as int,
        }
    }

    /// Column `index`, when it exists.
    pub open spec fn spec_column(self, index: int) -> Option<Seq<bool>> {
        match self.flat {
            Some(flat) => if 0 <= index < flat.feature_count {
                Some(
                    flat.features@.subrange(
                        index * flat.batch_size,
                        index * flat.batch_size + flat.batch_size,
                    ),
                )
            } else {
                None
            },
            None => if 0 <= index < self.feature_columns@.len() {
                Some(self.feature_columns@[index]@)
            } else {
                None
            },
        }
    }

    /// Every column of a flat batch lies inside its buffer.
    pub open spec fn wf(self) -> bool {
        match self.flat {
            Some(flat) => flat.batch_size * flat.feature_count <= flat.features@.len(),
            None => true,
        }
    }

    /// Column `index` of a flat batch, when it exists, lies inside the buffer.
    pub open spec fn column_in_buffer(self, index: int) -> bool {
        match self.flat {
            Some(flat) => 0 <= index < flat.feature_count ==> index * flat.batch_size + flat.batch_size <= flat.features@.len(),
            None => true,
        }
    }

    /// Column `index` (meaningful when it exists).
    pub open spec fn col(self, index: int) -> Seq<bool> {
        self.spec_column(index).unwrap()
    }

    /// Every column exists and has `batch_size` rows.
    pub open spec fn columns_have_len(self, batch_size: int) -> bool {
        forall|i: int|
            0 <= i < self.spec_feature_count() ==> (#[trigger] self.spec_column(i)) is Some
                && self.col(i).len() == batch_size
    }

    pub fn from_columns(feature_columns: &'a [&'a [bool]], signs: &'a [bool]) -> (r: Self)
        ensures
            r.wf(),
            r.feature_columns == feature_columns,
            r.signs == signs,
            r.flat is None,
            r.spec_feature_count() == feature_columns@.len(),
            forall|i: int|
                #![trigger r.spec_column(i)]
                r.spec_column(i) == if 0 <= i < feature_columns@.len() {
                    Some(feature_columns@[i]@)
                } else {
                    None
                },
    {
        Self { feature_columns, signs, flat: None }
    }

    /// Feature-major flat storage: column `i` is
    /// `features[i * batch_size .. (i + 1) * batch_size]`.
    pub fn from_flat(
        features: &'a [bool],
        batch_size: usize,
        feature_count: usize,
        signs: &'a [bool],
    ) -> (r: Self)
        ensures
            r.wf() <==> batch_size * feature_count <= features.len(),
            r.signs == signs,
            r.feature_columns@.len() == 0,
            r.spec_feature_count() == feature_count,
            forall|i: int|
                #![trigger r.spec_column(i)]
                r.spec_column(i) == if 0 <= i < feature_count {
                    Some(features@.subrange(i * batch_size, i * batch_size + batch_size))
                } else {
                    None
                },
    {
        let empty: &'a [&'a [bool]] = &[];
        Self {
            feature_columns: empty,
            signs,
            flat: Some(FlatBatch { features, batch_size, feature_count }),
        }
    }

    pub fn feature_count(&self) -> (r: usize)
        ensures
            r == self.spec_feature_count(),
    {
        match self.flat {
            Some(flat) => flat.feature_count,
            None => self.feature_columns.len(),
        }
    }

    pub fn column(&self, index: usize) -> (r: Option<&'a [bool]>)
        requires
            self.wf() || self.column_in_buffer(index as int),
        ensures
            match r {
                Some(c) => self.spec_column(index as int) == Some(c@),
                None => self.spec_column(index as int) is None,
            },
    {
        match self.flat {
            Some(flat) => {
                if index >= flat.feature_count {
                    return None;
                }
                let bs = flat.batch_size;
                let fc = flat.feature_count;
                let len = flat.features.len();
                proof {
                    if self.wf() {
                        assert(bs * fc <= flat.features@.len());
                        assert(index * bs + bs <= bs * fc) by (nonlinear_arith)
                            requires index < fc;
                    }
                }
                let start = index * bs;
                Some(slice_range(flat.features, start, start + bs))
            },
            None => {
                if index < self.feature_columns.len() {
                    Some(self.feature_columns[index])
                } else {
                    None
                }
            },
        }
    }
}

/// The sub-slice `s[start..end]`.
pub fn slice_range<'s, T>(s: &'s [T], start: usize, end: usize) -> (r: &'s [T])
    requires
        start <= end <= s.len(),
    ensures
        r@ == s@.subrange(start as int, end as int),
{
    &s[start..end]
}

} // verus!
