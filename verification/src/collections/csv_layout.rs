use vstd::prelude::*;

verus! {

/// Where the fields of a CSV row of a collection stand: `n_pre` columns, the key at
/// `key_idx`, `n_mid` columns, the value (at `value_idx` when it is read or written), and
/// `n_post` columns.
pub struct CsvLayout {
    pub n_pre: usize,
    pub key_idx: usize,
    pub n_mid: usize,
    pub value_idx: Option<usize>,
    pub n_post: usize,
}

/// Which group of further columns a column belongs to.
pub enum ColumnGroup {
    Pre,
    Mid,
    Post,
}

impl CsvLayout {
    /// The position of the value: `value_idx`, or, without one, the place after the middle
    /// columns.
    pub open spec fn value_pos(self) -> int {
        match self.value_idx {
            Some(v) => v as int,
            None => self.key_idx + 1 + self.n_mid,
        }
    }

    /// The positions of the further columns, in the order in which their filters are tried:
    /// pre-column `i` at `i`, middle column `i` at `key_idx + 1 + i`, post-column `i` at
    /// `value_pos + 1 + i`.
    pub open spec fn column_positions(self) -> Seq<(ColumnGroup, usize, int)> {
        Seq::new(self.n_pre as nat, |i: int| (ColumnGroup::Pre, i as usize, i))
            + Seq::new(self.n_mid as nat, |i: int| (ColumnGroup::Mid, i as usize, self.key_idx + 1 + i))
            + Seq::new(self.n_post as nat, |i: int| (ColumnGroup::Post, i as usize, self.value_pos() + 1 + i))
    }

    /// No position overflows.
    pub open spec fn fits(self) -> bool {
        &&& self.key_idx + 1 + self.n_mid <= usize::MAX
        &&& self.value_pos() + 1 + self.n_post <= usize::MAX
    }

    /// The columns with their group, their number in the group and their position in a row
    /// (see `column_positions`).
    pub fn positions(&self) -> (r: Vec<(ColumnGroup, usize, usize)>)
        requires
            self.fits(),
        ensures
            r@.len() == self.column_positions().len(),
            forall|k: int| 0 <= k < r@.len() ==> (#[trigger] r@[k]).0 == self.column_positions()[k].0
                && r@[k].1 == self.column_positions()[k].1 && r@[k].2 == self.column_positions()[k].2,
    {
        let ghost cp = self.column_positions();
        let vpos: usize = match self.value_idx {
            Some(v) => v,
            None => self.key_idx + 1 + self.n_mid,
        };
        let mut r: Vec<(ColumnGroup, usize, usize)> = Vec::new();
        let mut i: usize = 0;
        while i < self.n_pre
            invariant
                cp == self.column_positions(),
                i <= self.n_pre,
                r@.len() == i,
                forall|k: int| 0 <= k < r@.len() ==> (#[trigger] r@[k]).0 == cp[k].0 && r@[k].1 == cp[k].1 && r@[k].2 == cp[k].2,
            decreases self.n_pre - i,
        {
            r.push((ColumnGroup::Pre, i, i));
            i = i + 1;
        }
        let mut i: usize = 0;
        while i < self.n_mid
            invariant
                cp == self.column_positions(),
                self.fits(),
                i <= self.n_mid,
                r@.len() == self.n_pre + i,
                forall|k: int| 0 <= k < r@.len() ==> (#[trigger] r@[k]).0 == cp[k].0 && r@[k].1 == cp[k].1 && r@[k].2 == cp[k].2,
            decreases self.n_mid - i,
        {
            r.push((ColumnGroup::Mid, i, self.key_idx + 1 + i));
            i = i + 1;
        }
        let mut i: usize = 0;
        while i < self.n_post
            invariant
                cp == self.column_positions(),
                self.fits(),
                vpos == self.value_pos(),
                i <= self.n_post,
                r@.len() == self.n_pre + self.n_mid + i,
                forall|k: int| 0 <= k < r@.len() ==> (#[trigger] r@[k]).0 == cp[k].0 && r@[k].1 == cp[k].1 && r@[k].2 == cp[k].2,
            decreases self.n_post - i,
        {
            r.push((ColumnGroup::Post, i, vpos + 1 + i));
            i = i + 1;
        }
        r
    }
}

/// The fields of a row: the pre-columns, the key, the middle columns, the value if there is
/// one, and the post-columns.
pub fn row_fields(pre: Vec<String>, key: String, mid: Vec<String>, value: Option<String>, post: Vec<String>) -> (r: Vec<String>)
    ensures
        r@ == pre@ + seq![key] + mid@ + (match value { Some(v) => seq![v], None => Seq::<String>::empty() }) + post@,
{
    let ghost vs = match &value { Some(v) => seq![*v], None => Seq::<String>::empty() };
    let ghost p0 = pre@;
    let ghost m0 = mid@;
    let ghost q0 = post@;
    let ghost k0 = key;
    let mut r = pre;
    r.push(key);
    let mut mid = mid;
    r.append(&mut mid);
    match value {
        Some(v) => {
            r.push(v);
        },
        None => {},
    }
    let mut post = post;
    r.append(&mut post);
    proof {
        assert(r@ =~= p0 + seq![k0] + m0 + vs + q0);
    }
    r
}

} // verus!
