//! A directory of chunks that share one schema, with size-based rollover.
use vstd::prelude::*;
use vstd::string::StringExecFns;
use crate::chunk::{
    Chunk, HEADER_SIZE, LIMIT_ITEM_SIZE, chunk_size, fields_data, fields_sizes,
    index_key, names_of, row_fits, row_size, row_view, rows_view, types_of, whole_rows,
};
use crate::column::{Column, Item, ItemV, push_char};

verus! {

/// Why a row could not be appended.
#[derive(Clone, Copy, Debug, PartialEq, Eq, Structural)]
pub enum AppendError {
    /// The row does not fit the schema.
    InvalidRow,
    /// The row alone would take an empty chunk past the size limit.
    RowTooLarge,
}

/// A named collection of chunks sharing one column schema. Only the last chunk is
/// open for writes; every other one is sealed.
pub struct Hypertable {
    id: String,
    columns: Vec<Column>,
    dimensions: Vec<Column>,
    sizes: Vec<u32>,
    tables: Vec<Chunk>,
}

/// The character of a decimal digit.
pub open spec fn digit_char(d: nat) -> char {
    ((d + 48) as u8) as char
}

/// The decimal notation of `n`.
pub open spec fn decimal(n: nat) -> Seq<char>
    decreases n,
{
    if n < 10 {
        seq![digit_char(n)]
    } else {
        decimal(n / 10).push(digit_char(n % 10))
    }
}

/// The id of the chunk at position `i` of the table named `table`.
pub open spec fn chunk_id(table: Seq<char>, i: nat) -> Seq<char> {
    table + seq!['-'] + decimal(i)
}

/// The length tables of the chunks, one after the other.
pub open spec fn all_sizes(chunks: Seq<Chunk>) -> Seq<u8> {
    chunks.map_values(|c: Chunk| c.sizes@).flatten()
}

/// The data buffers of the chunks, one after the other.
pub open spec fn all_data(chunks: Seq<Chunk>) -> Seq<u8> {
    chunks.map_values(|c: Chunk| c.data@).flatten()
}

/// The decimal notation of `n` as a string.
fn decimal_string(n: usize) -> (r: String)
    ensures
        r@ == decimal(n as nat),
    decreases n,
{
    if n < 10 {
        let mut s = String::new();
        push_char(&mut s, ((n as u8) + 48) as char);
        assert(s@ =~= decimal(n as nat));
        s
    } else {
        let mut s = decimal_string(n / 10);
        push_char(&mut s, (((n % 10) as u8) + 48) as char);
        s
    }
}

/// Extending the last of a sequence of buffers extends their concatenation.
proof fn lemma_flatten_set_last(s: Seq<Seq<u8>>, x: Seq<u8>)
    requires
        s.len() > 0,
    ensures
        s.drop_last().push(s.last() + x).flatten() == s.flatten() + x,
{
    s.drop_last().lemma_flatten_push(s.last() + x);
    s.drop_last().lemma_flatten_push(s.last());
    assert(s.drop_last().push(s.last()) =~= s);
}

impl Hypertable {
    /// The name of the table.
    pub closed spec fn table_id(&self) -> Seq<char> {
        self.id@
    }

    /// The shared schema.
    pub closed spec fn schema(&self) -> Seq<Column> {
        self.columns@
    }

    /// The dimension columns given to every chunk.
    pub closed spec fn dims(&self) -> Seq<Column> {
        self.dimensions@
    }

    /// The chunks, oldest first.
    pub closed spec fn chunks(&self) -> Seq<Chunk> {
        self.tables@
    }

    /// The recorded size of each chunk.
    pub closed spec fn chunk_sizes(&self) -> Seq<u32> {
        self.sizes@
    }

    /// Every chunk has the table's schema, an id from its position, a whole number of rows,
    /// a size within the limit and that size recorded.
    pub open spec fn wf(&self) -> bool {
        &&& self.chunk_sizes().len() == self.chunks().len()
        &&& forall|i: int|
            #![trigger self.chunks()[i]]
            0 <= i < self.chunks().len() ==> {
                let c = self.chunks()[i];
                &&& c.columns@ == self.schema()
                &&& c.dimensions@ == self.dims()
                &&& c.id@ == chunk_id(self.table_id(), i as nat)
                &&& whole_rows(self.schema().len(), c.sizes@.len())
                &&& chunk_size(c.sizes@, c.data@) <= LIMIT_ITEM_SIZE
                &&& self.chunk_sizes()[i] == chunk_size(c.sizes@, c.data@)
            }
    }

    /// A table with no dimension columns and no chunks.
    pub fn new(id: String, columns: Vec<Column>) -> (r: Self)
        ensures
            r.wf(),
            r.table_id() == id@,
            r.schema() == columns@,
            r.dims() == Seq::<Column>::empty(),
            r.chunks() == Seq::<Chunk>::empty(),
    {
        Self::with_dimensions(id, columns, Vec::new())
    }

    /// A table whose chunks derive their secondary index from `dimensions`; no chunks yet.
    pub fn with_dimensions(id: String, columns: Vec<Column>, dimensions: Vec<Column>) -> (r: Self)
        ensures
            r.wf(),
            r.table_id() == id@,
            r.schema() == columns@,
            r.dims() == dimensions@,
            r.chunks() == Seq::<Chunk>::empty(),
    {
        Hypertable { id, columns, dimensions, sizes: Vec::new(), tables: Vec::new() }
    }

    /// Every chunk, oldest first.
    pub fn all_chunks(&self) -> (r: &Vec<Chunk>)
        ensures
            r@ == self.chunks(),
    {
        &self.tables
    }

    /// A copy of a list of columns.
    fn copy_columns(v: &Vec<Column>) -> (r: Vec<Column>)
        ensures
            r@ == v@,
    {
        let mut r: Vec<Column> = Vec::new();
        let mut i: usize = 0;
        while i < v.len()
            invariant
                i <= v@.len(),
                r@ == v@.take(i as int),
            decreases v@.len() - i,
        {
            r.push(v[i].duplicate());
            i = i + 1;
            assert(r@ =~= v@.take(i as int));
        }
        assert(v@.take(i as int) =~= v@);
        r
    }

    /// Appends one row stamped with `timestamp`. It goes into the open chunk when that
    /// chunk has the same time bucket and stays within the size limit with it; otherwise
    /// the open chunk is sealed and the row opens a new chunk.
    pub fn append_row(&mut self, timestamp: &String, row: &Vec<Item>) -> (r: Result<(), AppendError>)
        requires
            old(self).wf(),
        ensures
            final(self).wf(),
            final(self).table_id() == old(self).table_id(),
            final(self).schema() == old(self).schema(),
            final(self).dims() == old(self).dims(),
            r is Err <==> !row_fits(types_of(old(self).schema()), row_view(*row))
                || HEADER_SIZE + row_size(row_view(*row)) > LIMIT_ITEM_SIZE,
            r == Err::<(), AppendError>(AppendError::InvalidRow) <==> !row_fits(
                types_of(old(self).schema()),
                row_view(*row),
            ),
            r is Err ==> final(self).chunks() == old(self).chunks(),
            r is Ok ==> ({
                let n = old(self).chunks().len();
                let fits = n > 0 && old(self).chunks()[n - 1].timestamp@ == timestamp@
                    && chunk_size(old(self).chunks()[n - 1].sizes@, old(self).chunks()[n - 1].data@)
                    + row_size(row_view(*row)) <= LIMIT_ITEM_SIZE;
                if fits {
                    &&& final(self).chunks().len() == n
                    &&& final(self).chunks().take(n - 1) == old(self).chunks().take(n - 1)
                    &&& final(self).chunks()[n - 1].timestamp == old(self).chunks()[n - 1].timestamp
                    &&& final(self).chunks()[n - 1].sizes@ == old(self).chunks()[n - 1].sizes@
                        + fields_sizes(row_view(*row))
                    &&& final(self).chunks()[n - 1].data@ == old(self).chunks()[n - 1].data@
                        + fields_data(row_view(*row))
                } else {
                    &&& final(self).chunks().len() == n + 1
                    &&& final(self).chunks().take(n as int) == old(self).chunks()
                    &&& final(self).chunks()[n as int].timestamp@ == timestamp@
                    &&& final(self).chunks()[n as int].sizes@ == fields_sizes(row_view(*row))
                    &&& final(self).chunks()[n as int].data@ == fields_data(row_view(*row))
                }
            }),
            r is Ok ==> all_sizes(final(self).chunks()) == all_sizes(old(self).chunks())
                + fields_sizes(row_view(*row)),
            r is Ok ==> all_data(final(self).chunks()) == all_data(old(self).chunks())
                + fields_data(row_view(*row)),
    {
        let ghost pre = *self;
        let ghost rv = row_view(*row);
        let n = self.tables.len();
        let mut fresh = Chunk::new(
            String::new(),
            timestamp.clone(),
            Vec::new(),
            Self::copy_columns(&self.dimensions),
            Self::copy_columns(&self.columns),
            Vec::new(),
        );
        if !fresh.row_fits_exec(row) {
            return Err(AppendError::InvalidRow);
        }
        if n > 0 && self.tables[n - 1].timestamp == *timestamp {
            let mut open = self.tables.pop().unwrap();
            let old_size = self.sizes.pop().unwrap();
            assert(open == pre.tables@[n - 1]);
            if open.append_row(row) {
                let size = open.size();
                self.tables.push(open);
                self.sizes.push(size);
                proof {
                    assert(self.tables@.take(n - 1) =~= pre.tables@.take(n - 1));
                    assert forall|i: int| 0 <= i < n - 1 implies self.tables@[i] == pre.tables@[i] by {
                        assert(self.tables@.take(n - 1)[i] == self.tables@[i]);
                    }
                    assert(self.sizes@ =~= pre.sizes@.update(n - 1, size));
                    let ms = pre.tables@.map_values(|c: Chunk| c.sizes@);
                    let md = pre.tables@.map_values(|c: Chunk| c.data@);
                    lemma_flatten_set_last(ms, fields_sizes(rv));
                    lemma_flatten_set_last(md, fields_data(rv));
                    assert(ms.drop_last().push(ms.last() + fields_sizes(rv))
                        =~= self.tables@.map_values(|c: Chunk| c.sizes@));
                    assert(md.drop_last().push(md.last() + fields_data(rv))
                        =~= self.tables@.map_values(|c: Chunk| c.data@));
                    let k = self.columns@.len();
                    if k > 0 {
                        let a = pre.tables@[n - 1].sizes@.len() as int;
                        let q = a / k as int;
                        vstd::arithmetic::div_mod::lemma_fundamental_div_mod(a, k as int);
                        assert(a + k == (q + 1) * k) by (nonlinear_arith)
                            requires a == k * q + 0;
                        vstd::arithmetic::div_mod::lemma_mod_multiples_basic(q + 1, k as int);
                    }
                }
                return Ok(());
            }
            self.tables.push(open);
            self.sizes.push(old_size);
            assert(self.tables@ =~= pre.tables@);
            assert(self.sizes@ =~= pre.sizes@);
        }
        let ok = fresh.append_row(row);
        if !ok {
            return Err(AppendError::RowTooLarge);
        }
        let mut id = self.id.clone();
        proof {
            reveal_strlit("-");
        }
        id.append("-");
        let digits = decimal_string(n);
        id.append(digits.as_str());
        fresh.id = id;
        let size = fresh.size();
        self.tables.push(fresh);
        self.sizes.push(size);
        proof {
            assert(self.tables@.take(n as int) =~= pre.tables@);
            assert(pre.tables@.map_values(|c: Chunk| c.sizes@).push(fields_sizes(rv))
                =~= self.tables@.map_values(|c: Chunk| c.sizes@));
            assert(pre.tables@.map_values(|c: Chunk| c.data@).push(fields_data(rv))
                =~= self.tables@.map_values(|c: Chunk| c.data@));
            pre.tables@.map_values(|c: Chunk| c.sizes@).lemma_flatten_push(fields_sizes(rv));
            pre.tables@.map_values(|c: Chunk| c.data@).lemma_flatten_push(fields_data(rv));
            assert(Seq::<u8>::empty() + fields_sizes(rv) =~= fields_sizes(rv));
            assert(Seq::<u8>::empty() + fields_data(rv) =~= fields_data(rv));
            assert(whole_rows(self.columns@.len(), fields_sizes(rv).len())) by {
                if self.columns@.len() > 0 {
                    vstd::arithmetic::div_mod::lemma_mod_self_0(self.columns@.len() as int);
                }
            }
            let c = self.tables@[n as int];
            assert(c.id@ == chunk_id(self.id@, n as nat));
            assert(c.columns@ == self.columns@);
            assert(c.dimensions@ == self.dimensions@);
            assert(chunk_size(c.sizes@, c.data@) <= LIMIT_ITEM_SIZE);
            assert(self.sizes@[n as int] == chunk_size(c.sizes@, c.data@));
            assert forall|i: int| 0 <= i < n implies self.tables@[i] == pre.tables@[i]
                && self.sizes@[i] == pre.sizes@[i] by {
                assert(self.tables@.take(n as int)[i] == self.tables@[i]);
            }
        }
        Ok(())
    }

    /// Appends rows in order, each as `append_row` does. Stops at the first row that
    /// cannot be appended and returns its index with the reason; the rows before it stay
    /// appended.
    pub fn append(&mut self, timestamp: &String, rows: &Vec<Vec<Item>>) -> (r: Result<
        (),
        (usize, AppendError),
    >)
        requires
            old(self).wf(),
        ensures
            final(self).wf(),
            final(self).table_id() == old(self).table_id(),
            final(self).schema() == old(self).schema(),
            final(self).dims() == old(self).dims(),
            final(self).chunks().len() >= old(self).chunks().len(),
            forall|i: int|
                0 <= i < old(self).chunks().len() - 1 ==> #[trigger] final(self).chunks()[i]
                    == old(self).chunks()[i],
            ({
                let done = match r {
                    Ok(_) => rows@.len() as int,
                    Err((j, _)) => j as int,
                };
                &&& 0 <= done <= rows@.len()
                &&& all_sizes(final(self).chunks()) == all_sizes(old(self).chunks()) + fields_sizes(
                    rows_view(rows@).take(done).flatten(),
                )
                &&& all_data(final(self).chunks()) == all_data(old(self).chunks()) + fields_data(
                    rows_view(rows@).take(done).flatten(),
                )
            }),
            r matches Err((j, e)) ==> j < rows@.len() && (e == AppendError::InvalidRow <==> !row_fits(
                types_of(old(self).schema()),
                rows_view(rows@)[j as int],
            )) && (e == AppendError::RowTooLarge ==> HEADER_SIZE + row_size(rows_view(rows@)[j as int])
                > LIMIT_ITEM_SIZE),
    {
        let ghost pre = *self;
        let ghost rv = rows_view(rows@);
        let mut i: usize = 0;
        assert(rv.take(0).flatten() =~= Seq::<ItemV>::empty());
        assert(all_sizes(self.tables@) + fields_sizes(Seq::<ItemV>::empty()) =~= all_sizes(self.tables@));
        assert(all_data(self.tables@) + fields_data(Seq::<ItemV>::empty()) =~= all_data(self.tables@));
        while i < rows.len()
            invariant
                pre == *old(self),
                self.wf(),
                rv == rows_view(rows@),
                self.table_id() == pre.table_id(),
                self.schema() == pre.schema(),
                self.dims() == pre.dims(),
                i <= rows@.len(),
                self.chunks().len() >= pre.chunks().len(),
                forall|x: int|
                    0 <= x < pre.chunks().len() - 1 ==> #[trigger] self.chunks()[x] == pre.chunks()[x],
                all_sizes(self.chunks()) == all_sizes(pre.chunks()) + fields_sizes(rv.take(i as int).flatten()),
                all_data(self.chunks()) == all_data(pre.chunks()) + fields_data(rv.take(i as int).flatten()),
            decreases rows@.len() - i,
        {
            let ghost before = *self;
            assert(rv[i as int] == row_view(rows@[i as int]));
            match self.append_row(timestamp, &rows[i]) {
                Ok(()) => {},
                Err(e) => {
                    return Err((i, e));
                },
            }
            proof {
                assert forall|x: int| 0 <= x < pre.chunks().len() - 1 implies #[trigger] self.chunks()[x]
                    == pre.chunks()[x] by {
                    let n = before.chunks().len();
                    if x < n - 1 {
                        assert(self.chunks().take(n - 1)[x] == before.chunks().take(n - 1)[x]);
                    } else {
                        assert(self.chunks().take(n as int)[x] == before.chunks()[x]);
                    }
                }
                assert(rv.take(i + 1) =~= rv.take(i as int).push(rv[i as int]));
                rv.take(i as int).lemma_flatten_push(rv[i as int]);
                crate::chunk::lemma_fields_data_concat(rv.take(i as int).flatten(), rv[i as int]);
            }
            i = i + 1;
        }
        assert(rv.take(i as int) =~= rv);
        Ok(())
    }

    /// The positions of the chunks whose secondary index is `index`, oldest first.
    pub fn chunks_for(&self, index: &String) -> (r: Vec<usize>)
        ensures
            forall|x: int| 0 <= x < r@.len() ==> (#[trigger] r@[x]) < self.chunks().len(),
            forall|x: int, y: int| 0 <= x < y < r@.len() ==> r@[x] < r@[y],
            forall|i: int|
                0 <= i < self.chunks().len() ==> (r@.contains(i as usize) <==> index_key(
                    #[trigger] self.chunks()[i].timestamp@,
                    names_of(self.chunks()[i].dimensions@),
                ) == index@),
    {
        let mut r: Vec<usize> = Vec::new();
        let mut i: usize = 0;
        while i < self.tables.len()
            invariant
                i <= self.tables@.len(),
                forall|x: int| 0 <= x < r@.len() ==> (#[trigger] r@[x]) < i,
                forall|x: int, y: int| 0 <= x < y < r@.len() ==> r@[x] < r@[y],
                forall|j: int|
                    0 <= j < i ==> (r@.contains(j as usize) <==> index_key(
                        #[trigger] self.tables@[j].timestamp@,
                        names_of(self.tables@[j].dimensions@),
                    ) == index@),
            decreases self.tables@.len() - i,
        {
            let key = self.tables[i].secondary_index();
            let ghost r0 = r@;
            let hit = key == *index;
            if hit {
                r.push(i);
            }
            proof {
                assert forall|j: int| 0 <= j < i + 1 implies (r@.contains(j as usize) <==> index_key(
                    #[trigger] self.tables@[j].timestamp@,
                    names_of(self.tables@[j].dimensions@),
                ) == index@) by {
                    if hit {
                        assert(r@ == r0.push(i));
                        if r0.contains(j as usize) {
                            let w = choose|w: int| 0 <= w < r0.len() && r0[w] == j as usize;
                            assert(r@[w] == j as usize);
                        }
                        if r@.contains(j as usize) && j < i {
                            let w = choose|w: int| 0 <= w < r@.len() && r@[w] == j as usize;
                            assert(w < r0.len());
                            assert(r0[w] == j as usize);
                        }
                        if j == i {
                            assert(r@[r0.len() as int] == i);
                        }
                    } else {
                        if j == i && r0.contains(j as usize) {
                            let w = choose|w: int| 0 <= w < r0.len() && r0[w] == j as usize;
                        }
                    }
                }
            }
            i = i + 1;
        }
        r
    }
}

} // verus!
