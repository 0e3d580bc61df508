//! A chunk: rows packed into one byte buffer with a parallel table of field lengths.
use vstd::prelude::*;
use vstd::arithmetic::div_mod::{
    lemma_div_multiples_vanish, lemma_fundamental_div_mod, lemma_fundamental_div_mod_converse_mod,
    lemma_mod_multiples_basic,
};
use crate::column::lemma_field_round_trip;
use vstd::seq_lib::lemma_flatten_concat;
use vstd::slice::slice_subrange;
use vstd::string::StringExecFns;
use crate::column::{
    Column, ColumnType, DecodeError, Item, ItemV, append_item, decode_field, field_bytes, item_fits,
    item_fits_exec, MAX_FIELD_LEN,
};

verus! {

/// Largest size, in bytes, that one chunk may reach.
pub const LIMIT_ITEM_SIZE: usize = 400000;

/// Bytes that every chunk counts beyond its two buffers.
pub const HEADER_SIZE: usize = 9;

/// Why a batch of rows was refused.
#[derive(Clone, Copy, Debug, PartialEq, Eq, Structural)]
pub enum EncodeError {
    /// The row at this index does not fit the schema: wrong arity, a field of the
    /// wrong type, or a text that is too long or holds a character wider than a byte.
    InvalidRow(usize),
}

/// One packed record of rows under a fixed schema.
pub struct Chunk {
    pub id: String,
    pub timestamp: String,
    pub sizes: Vec<u8>,
    pub dimensions: Vec<Column>,
    pub columns: Vec<Column>,
    pub data: Vec<u8>,
}

/// The types of a schema, in order.
pub open spec fn types_of(cols: Seq<Column>) -> Seq<ColumnType> {
    cols.map_values(|c: Column| c.col_type)
}

/// The names of a schema, in order.
pub open spec fn names_of(cols: Seq<Column>) -> Seq<Seq<char>> {
    cols.map_values(|c: Column| c.name@)
}

/// The view of a row.
pub open spec fn row_view(row: Vec<Item>) -> Seq<ItemV> {
    row@.map_values(|it: Item| it@)
}

/// The view of a sequence of rows.
pub open spec fn rows_view(rows: Seq<Vec<Item>>) -> Seq<Seq<ItemV>> {
    rows.map_values(|r: Vec<Item>| row_view(r))
}

/// The view of a decoding result.
pub open spec fn rows_result_view(r: Result<Vec<Vec<Item>>, DecodeError>) -> Result<
    Seq<Seq<ItemV>>,
    DecodeError,
> {
    match r {
        Ok(rows) => Ok(rows_view(rows@)),
        Err(e) => Err(e),
    }
}

/// The packed bytes of a sequence of fields.
pub open spec fn fields_data(items: Seq<ItemV>) -> Seq<u8> {
    items.map_values(|it: ItemV| field_bytes(it)).flatten()
}

/// The length table of a sequence of fields.
pub open spec fn fields_sizes(items: Seq<ItemV>) -> Seq<u8> {
    items.map_values(|it: ItemV| field_bytes(it).len() as u8)
}

/// The row has one field per column, each of its column's type and within bounds.
pub open spec fn row_fits(types: Seq<ColumnType>, row: Seq<ItemV>) -> bool {
    &&& row.len() == types.len()
    &&& forall|j: int| 0 <= j < row.len() ==> item_fits(types[j], #[trigger] row[j])
}

/// Every row fits the schema.
pub open spec fn rows_fit(types: Seq<ColumnType>, rows: Seq<Seq<ItemV>>) -> bool {
    forall|r: int| 0 <= r < rows.len() ==> row_fits(types, #[trigger] rows[r])
}

/// A text item is no longer than one length byte can say.
pub open spec fn short_field(it: ItemV) -> bool {
    match it {
        ItemV::Text(s) => s.len() <= MAX_FIELD_LEN,
        _ => true,
    }
}

/// The size of a chunk with these buffers.
pub open spec fn chunk_size(sizes: Seq<u8>, data: Seq<u8>) -> int {
    data.len() + sizes.len() + HEADER_SIZE as int
}

/// The number of bytes by which appending `row` grows a chunk's size.
pub open spec fn row_size(row: Seq<ItemV>) -> int {
    fields_data(row).len() + row.len() as int
}

/// The secondary index of a chunk: the time bucket, two underscores, and the
/// dimension names joined by single underscores.
pub open spec fn index_key(timestamp: Seq<char>, names: Seq<Seq<char>>) -> Seq<char> {
    timestamp + seq!['_', '_'] + join_names(names)
}

/// Names joined by single underscores.
pub open spec fn join_names(names: Seq<Seq<char>>) -> Seq<char>
    decreases names.len(),
{
    if names.len() == 0 {
        Seq::empty()
    } else if names.len() == 1 {
        names[0]
    } else {
        join_names(names.drop_last()) + seq!['_'] + names.last()
    }
}

/// Prefixes the fields already decoded to the outcome of decoding the rest.
pub open spec fn prepend(done: Seq<ItemV>, rest: Result<Seq<ItemV>, DecodeError>) -> Result<
    Seq<ItemV>,
    DecodeError,
> {
    match rest {
        Ok(tail) => Ok(done + tail),
        Err(e) => Err(e),
    }
}

/// Decodes fields in order, the first at flat index `start`: each takes as many
/// bytes as its length entry gives, and is read by the column that its flat index
/// selects modulo the schema width. The first failure wins.
pub open spec fn decode_fields(types: Seq<ColumnType>, start: nat, sizes: Seq<u8>, data: Seq<u8>) -> Result<
    Seq<ItemV>,
    DecodeError,
>
    decreases sizes.len(),
{
    if sizes.len() == 0 {
        Ok(Seq::empty())
    } else if sizes[0] > data.len() {
        Err(DecodeError::OutOfBounds)
    } else {
        match decode_field(types[start as int % types.len() as int], data.take(sizes[0] as int)) {
            Ok(it) => prepend(
                seq![it],
                decode_fields(types, start + 1, sizes.drop_first(), data.skip(sizes[0] as int)),
            ),
            Err(e) => Err(e),
        }
    }
}

/// Cuts a sequence of fields into rows of `k` fields.
pub open spec fn group_rows(flat: Seq<ItemV>, k: nat) -> Seq<Seq<ItemV>> {
    if k == 0 {
        Seq::empty()
    } else {
        Seq::new(flat.len() / k, |r: int| flat.subrange(r * k, r * k + k))
    }
}

/// The table holds a whole number of rows of a schema of `k` columns.
pub open spec fn whole_rows(k: nat, n: nat) -> bool {
    if k == 0 {
        n == 0
    } else {
        n % k == 0
    }
}

/// What decoding a chunk with these buffers under schema `types` gives.
pub open spec fn decode_chunk(types: Seq<ColumnType>, sizes: Seq<u8>, data: Seq<u8>) -> Result<
    Seq<Seq<ItemV>>,
    DecodeError,
> {
    if !whole_rows(types.len(), sizes.len()) {
        Err(DecodeError::PartialRow)
    } else {
        match decode_fields(types, 0, sizes, data) {
            Ok(flat) => Ok(group_rows(flat, types.len())),
            Err(e) => Err(e),
        }
    }
}

/// Cell `j` of row `r` lies inside the first `m` rows of width `k`.
proof fn lemma_cell_in_rows(r: int, j: int, k: int, m: int)
    requires
        0 <= r < m,
        0 <= j < k,
    ensures
        0 <= r * k + j < m * k,
        r * k + k <= m * k,
        0 <= r * k,
{
    assert(r * k + k <= m * k) by (nonlinear_arith)
        requires
            0 <= r < m,
            0 < k,
    ;
    assert(0 <= r * k) by (nonlinear_arith)
        requires
            0 <= r,
            0 < k,
    ;
}

/// The packed bytes of two runs of fields are those of each, one after the other.
pub proof fn lemma_fields_data_concat(a: Seq<ItemV>, b: Seq<ItemV>)
    ensures
        fields_data(a + b) == fields_data(a) + fields_data(b),
        fields_sizes(a + b) == fields_sizes(a) + fields_sizes(b),
{
    let f = |it: ItemV| field_bytes(it);
    assert((a + b).map_values(f) =~= a.map_values(f) + b.map_values(f));
    lemma_flatten_concat(a.map_values(f), b.map_values(f));
    assert(fields_sizes(a + b) =~= fields_sizes(a) + fields_sizes(b));
}

/// Taking one more row of a batch adds that row's fields at the end.
proof fn lemma_take_one_more(rows: Seq<Seq<ItemV>>, i: int)
    requires
        0 <= i < rows.len(),
    ensures
        rows.take(i + 1).flatten() == rows.take(i).flatten() + rows[i],
        fields_data(rows.take(i + 1).flatten()) == fields_data(rows.take(i).flatten()) + fields_data(rows[i]),
        fields_sizes(rows.take(i + 1).flatten()) == fields_sizes(rows.take(i).flatten()) + fields_sizes(rows[i]),
{
    assert(rows.take(i + 1) =~= rows.take(i).push(rows[i]));
    rows.take(i).lemma_flatten_push(rows[i]);
    lemma_fields_data_concat(rows.take(i).flatten(), rows[i]);
}

/// Rows of `k` fields each flatten to `k` fields per row.
proof fn lemma_flatten_len(rows: Seq<Seq<ItemV>>, k: nat)
    requires
        forall|r: int| 0 <= r < rows.len() ==> (#[trigger] rows[r]).len() == k,
    ensures
        rows.flatten().len() == rows.len() * k,
    decreases rows.len(),
{
    if rows.len() > 0 {
        lemma_flatten_len(rows.drop_first(), k);
        assert(rows.len() * k == k + (rows.len() - 1) * k) by (nonlinear_arith);
    }
}

/// The chunk `b` has the same identity and schema as `a`.
pub open spec fn same_schema(a: Chunk, b: Chunk) -> bool {
    &&& a.id == b.id
    &&& a.timestamp == b.timestamp
    &&& a.dimensions == b.dimensions
    &&& a.columns == b.columns
}

/// The first `n` rows of `rows` were appended to the buffers `(sizes0, data0)`, giving
/// `(sizes1, data1)`, and the row after them, if any, would have taken the chunk past the limit.
pub open spec fn wrote_prefix(
    sizes0: Seq<u8>,
    data0: Seq<u8>,
    sizes1: Seq<u8>,
    data1: Seq<u8>,
    rows: Seq<Seq<ItemV>>,
    n: int,
) -> bool {
    &&& 0 <= n <= rows.len()
    &&& sizes1 == sizes0 + fields_sizes(rows.take(n).flatten())
    &&& data1 == data0 + fields_data(rows.take(n).flatten())
    &&& n < rows.len() ==> chunk_size(sizes1, data1) + row_size(rows[n]) > LIMIT_ITEM_SIZE
}

/// The row at `j` is the first one of `rows` that does not fit the schema.
pub open spec fn first_misfit(types: Seq<ColumnType>, rows: Seq<Seq<ItemV>>, j: int) -> bool {
    &&& 0 <= j < rows.len()
    &&& !row_fits(types, rows[j])
    &&& forall|i: int| 0 <= i < j ==> row_fits(types, #[trigger] rows[i])
}

/// The index of the offending row.
pub open spec fn misfit_index(e: EncodeError) -> int {
    match e {
        EncodeError::InvalidRow(j) => j as int,
    }
}

impl Chunk {
    /// The types of this chunk's schema.
    pub open spec fn types(&self) -> Seq<ColumnType> {
        types_of(self.columns@)
    }

    /// Builds a chunk from its parts.
    pub fn new(
        id: String,
        timestamp: String,
        sizes: Vec<u8>,
        dimensions: Vec<Column>,
        columns: Vec<Column>,
        data: Vec<u8>,
    ) -> (r: Self)
        ensures
            r.id == id,
            r.timestamp == timestamp,
            r.sizes == sizes,
            r.dimensions == dimensions,
            r.columns == columns,
            r.data == data,
    {
        Chunk { id, timestamp, sizes, dimensions, columns, data }
    }

    /// The size of the chunk: both buffers and a fixed header allowance.
    pub fn size(&self) -> (r: u32)
        requires
            chunk_size(self.sizes@, self.data@) <= u32::MAX,
        ensures
            r == chunk_size(self.sizes@, self.data@),
    {
        (self.data.len() + self.sizes.len() + HEADER_SIZE) as u32
    }

    /// The secondary lookup key: the time bucket, `__`, then the dimension names joined by `_`.
    pub fn secondary_index(&self) -> (r: String)
        ensures
            r@ == index_key(self.timestamp@, names_of(self.dimensions@)),
    {
        let ghost names = names_of(self.dimensions@);
        let mut key = self.timestamp.clone();
        proof {
            reveal_strlit("__");
            reveal_strlit("_");
        }
        key.append("__");
        let ghost head = key@;
        assert(head =~= self.timestamp@ + seq!['_', '_']);
        assert(names.take(0) =~= Seq::<Seq<char>>::empty());
        let mut i: usize = 0;
        while i < self.dimensions.len()
            invariant
                names == names_of(self.dimensions@),
                head == self.timestamp@ + seq!['_', '_'],
                i <= self.dimensions@.len(),
                key@ == head + join_names(names.take(i as int)),
            decreases self.dimensions@.len() - i,
        {
            proof {
                reveal_strlit("_");
            }
            let ghost before = key@;
            if i > 0 {
                key.append("_");
            }
            key.append(self.dimensions[i].name.as_str());
            proof {
                let t = names.take(i + 1);
                assert(t.drop_last() =~= names.take(i as int));
                assert(t.last() == self.dimensions@[i as int].name@);
                if i == 0 {
                    assert(key@ =~= head + join_names(t));
                } else {
                    assert(key@ =~= head + join_names(t));
                }
            }
            i = i + 1;
        }
        assert(names.take(self.dimensions@.len() as int) =~= names);
        key
    }

    /// Whether `row` fits this chunk's schema.
    pub(crate) fn row_fits_exec(&self, row: &Vec<Item>) -> (r: bool)
        ensures
            r == row_fits(self.types(), row_view(*row)),
    {
        let k = self.columns.len();
        if row.len() != k {
            return false;
        }
        let mut j: usize = 0;
        while j < k
            invariant
                k == self.columns@.len(),
                row@.len() == k,
                j <= k,
                forall|x: int| 0 <= x < j ==> item_fits(self.types()[x], #[trigger] row_view(*row)[x]),
            decreases k - j,
        {
            if !item_fits_exec(self.columns[j].col_type, &row[j]) {
                assert(!item_fits(self.types()[j as int], row_view(*row)[j as int]));
                return false;
            }
            j = j + 1;
        }
        true
    }

    /// How many bytes appending `row` would add to the size, or one past the limit when
    /// that is more.
    fn row_size_capped(row: &Vec<Item>) -> (r: usize)
        requires
            forall|j: int| 0 <= j < row@.len() ==> short_field(#[trigger] row@[j]@),
        ensures
            row_size(row_view(*row)) <= LIMIT_ITEM_SIZE ==> r == row_size(row_view(*row)),
            row_size(row_view(*row)) > LIMIT_ITEM_SIZE ==> r == LIMIT_ITEM_SIZE + 1,
    {
        let ghost rv = row_view(*row);
        let mut total: usize = 0;
        let mut j: usize = 0;
        assert(rv.take(0) =~= Seq::<ItemV>::empty());
        assert(fields_data(rv.take(0)) =~= Seq::<u8>::empty());
        while j < row.len()
            invariant
                rv == row_view(*row),
                forall|x: int| 0 <= x < row@.len() ==> short_field(#[trigger] row@[x]@),
                j <= row@.len(),
                total == fields_data(rv.take(j as int)).len() + j,
                total <= LIMIT_ITEM_SIZE,
            decreases row@.len() - j,
        {
            let len: usize = match &row[j] {
                Item::U32(_) => 4,
                Item::Float32(_) => 4,
                Item::Text(s) => s.as_str().unicode_len(),
            };
            proof {
                assert(rv[j as int] == row@[j as int]@);
                assert(rv.take(j + 1) =~= rv.take(j as int) + seq![rv[j as int]]);
                lemma_fields_data_concat(rv.take(j as int), seq![rv[j as int]]);
                let one = seq![rv[j as int]].map_values(|it: ItemV| field_bytes(it));
                assert(one.len() == 1);
                one.lemma_flatten_one_element();
            }
            total = total + len + 1;
            j = j + 1;
            if total > LIMIT_ITEM_SIZE {
                proof {
                    assert(rv =~= rv.take(j as int) + rv.skip(j as int));
                    lemma_fields_data_concat(rv.take(j as int), rv.skip(j as int));
                }
                return LIMIT_ITEM_SIZE + 1;
            }
        }
        assert(rv.take(j as int) =~= rv);
        total
    }

    /// Appends `row` when the chunk stays within the limit with it; otherwise leaves the
    /// chunk as it was.
    pub(crate) fn append_row(&mut self, row: &Vec<Item>) -> (ok: bool)
        requires
            row_fits(old(self).types(), row_view(*row)),
            chunk_size(old(self).sizes@, old(self).data@) <= LIMIT_ITEM_SIZE,
        ensures
            same_schema(*final(self), *old(self)),
            ok == (chunk_size(old(self).sizes@, old(self).data@) + row_size(row_view(*row))
                <= LIMIT_ITEM_SIZE),
            ok ==> final(self).sizes@ == old(self).sizes@ + fields_sizes(row_view(*row)),
            ok ==> final(self).data@ == old(self).data@ + fields_data(row_view(*row)),
            !ok ==> *final(self) == *old(self),
    {
        let ghost pre = *self;
        let ghost rv = row_view(*row);
        proof {
            assert forall|x: int| 0 <= x < row@.len() implies short_field(#[trigger] row@[x]@) by {
                assert(rv[x] == row@[x]@);
                assert(item_fits(pre.types()[x], rv[x]));
            }
        }
        let need = Self::row_size_capped(row);
        if need > LIMIT_ITEM_SIZE - (self.data.len() + self.sizes.len() + HEADER_SIZE) {
            return false;
        }
        let mut j: usize = 0;
        assert(rv.take(0) =~= Seq::<ItemV>::empty());
        assert(fields_data(rv.take(0)) =~= Seq::<u8>::empty());
        assert(pre.data@ + Seq::<u8>::empty() =~= pre.data@);
        assert(pre.sizes@ + fields_sizes(rv.take(0)) =~= pre.sizes@);
        while j < row.len()
            invariant
                pre == *old(self),
                same_schema(*self, pre),
                rv == row_view(*row),
                row_fits(pre.types(), rv),
                chunk_size(pre.sizes@, pre.data@) + row_size(rv) <= LIMIT_ITEM_SIZE,
                j <= row@.len(),
                self.data@ == pre.data@ + fields_data(rv.take(j as int)),
                self.sizes@ == pre.sizes@ + fields_sizes(rv.take(j as int)),
            decreases row@.len() - j,
        {
            proof {
                assert(item_fits(pre.types()[j as int], rv[j as int]));
                assert(rv[j as int] == row@[j as int]@);
                assert(rv =~= rv.take(j as int) + rv.skip(j as int));
                lemma_fields_data_concat(rv.take(j as int), rv.skip(j as int));
            }
            let n = append_item(&row[j], &mut self.data);
            self.sizes.push(n as u8);
            proof {
                assert(rv.take(j + 1) =~= rv.take(j as int) + seq![rv[j as int]]);
                lemma_fields_data_concat(rv.take(j as int), seq![rv[j as int]]);
                assert(fields_data(seq![rv[j as int]]) =~= field_bytes(rv[j as int])) by {
                    let one = seq![rv[j as int]].map_values(|it: ItemV| field_bytes(it));
                    assert(one.len() == 1);
                    one.lemma_flatten_one_element();
                }
                assert(fields_sizes(seq![rv[j as int]]) =~= seq![n as u8]);
            }
            j = j + 1;
        }
        assert(rv.take(j as int) =~= rv);
        true
    }

    /// Appends rows while the chunk stays within `LIMIT_ITEM_SIZE`, and returns how many
    /// went in. The first row that would take the chunk past the limit, and every row
    /// after it, is left for a new chunk. A batch with a row that does not fit the schema
    /// is refused whole.
    pub fn write(&mut self, rows: &Vec<Vec<Item>>) -> (r: Result<usize, EncodeError>)
        ensures
            same_schema(*final(self), *old(self)),
            r is Ok <==> rows_fit(old(self).types(), rows_view(rows@)),
            r is Ok ==> wrote_prefix(
                old(self).sizes@,
                old(self).data@,
                final(self).sizes@,
                final(self).data@,
                rows_view(rows@),
                r->Ok_0 as int,
            ),
            r is Ok && chunk_size(old(self).sizes@, old(self).data@) <= LIMIT_ITEM_SIZE
                ==> chunk_size(final(self).sizes@, final(self).data@) <= LIMIT_ITEM_SIZE,
            r is Ok && whole_rows(old(self).columns@.len(), old(self).sizes@.len())
                ==> whole_rows(final(self).columns@.len(), final(self).sizes@.len()),
            r is Err ==> first_misfit(old(self).types(), rows_view(rows@), misfit_index(r->Err_0)),
            r is Err ==> final(self).sizes@ == old(self).sizes@,
            r is Err ==> final(self).data@ == old(self).data@,
    {
        let ghost pre = *self;
        let ghost rv = rows_view(rows@);
        let ghost k = self.columns@.len();
        let mut v: usize = 0;
        while v < rows.len()
            invariant
                pre == *old(self),
                *self == pre,
                rv == rows_view(rows@),
                v <= rows@.len(),
                forall|i: int| 0 <= i < v ==> row_fits(self.types(), #[trigger] rv[i]),
            decreases rows@.len() - v,
        {
            assert(rv[v as int] == row_view(rows@[v as int]));
            if !self.row_fits_exec(&rows[v]) {
                return Err(EncodeError::InvalidRow(v));
            }
            v = v + 1;
        }
        let mut n: usize = 0;
        if self.data.len() > LIMIT_ITEM_SIZE || self.sizes.len() > LIMIT_ITEM_SIZE
            || self.data.len() + self.sizes.len() + HEADER_SIZE > LIMIT_ITEM_SIZE {
            assert(rv.take(0) =~= Seq::<Seq<ItemV>>::empty());
            assert(self.sizes@ =~= pre.sizes@ + fields_sizes(rv.take(0).flatten()));
            assert(self.data@ =~= pre.data@ + fields_data(rv.take(0).flatten()));
            return Ok(0);
        }
        assert(rv.take(0) =~= Seq::<Seq<ItemV>>::empty());
        assert(self.sizes@ =~= pre.sizes@ + fields_sizes(rv.take(0).flatten()));
        assert(self.data@ =~= pre.data@ + fields_data(rv.take(0).flatten()));
        while n < rows.len()
            invariant
                pre == *old(self),
                same_schema(*self, pre),
                rv == rows_view(rows@),
                k == pre.columns@.len(),
                rows_fit(pre.types(), rv),
                n <= rows@.len(),
                self.sizes@ == pre.sizes@ + fields_sizes(rv.take(n as int).flatten()),
                self.data@ == pre.data@ + fields_data(rv.take(n as int).flatten()),
                chunk_size(self.sizes@, self.data@) <= LIMIT_ITEM_SIZE,
            decreases rows@.len() - n,
        {
            assert(rv[n as int] == row_view(rows@[n as int]));
            if !self.append_row(&rows[n]) {
                assert(wrote_prefix(pre.sizes@, pre.data@, self.sizes@, self.data@, rv, n as int));
                proof { self.lemma_whole_rows_kept(pre, rv, n as int); }
                return Ok(n);
            }
            proof {
                lemma_take_one_more(rv, n as int);
            }
            n = n + 1;
        }
        proof { self.lemma_whole_rows_kept(pre, rv, n as int); }
        Ok(n)
    }

    /// Appending whole rows keeps the length table a whole number of rows.
    proof fn lemma_whole_rows_kept(&self, pre: Chunk, rv: Seq<Seq<ItemV>>, n: int)
        requires
            same_schema(*self, pre),
            rows_fit(pre.types(), rv),
            0 <= n <= rv.len(),
            self.sizes@ == pre.sizes@ + fields_sizes(rv.take(n).flatten()),
        ensures
            whole_rows(pre.columns@.len(), pre.sizes@.len())
                ==> whole_rows(self.columns@.len(), self.sizes@.len()),
    {
        let k = pre.columns@.len();
        let t = rv.take(n);
        assert forall|r: int| 0 <= r < t.len() implies (#[trigger] t[r]).len() == k by {
            assert(row_fits(pre.types(), rv[r]));
        }
        lemma_flatten_len(t, k);
        if k > 0 && whole_rows(k, pre.sizes@.len()) {
            let q = pre.sizes@.len() as int / k as int;
            lemma_fundamental_div_mod(pre.sizes@.len() as int, k as int);
            assert(self.sizes@.len() == (q + n) * k) by (nonlinear_arith)
                requires
                    self.sizes@.len() == pre.sizes@.len() + n * k,
                    pre.sizes@.len() == k * q + 0,
            ;
            vstd::arithmetic::div_mod::lemma_mod_multiples_basic(q + n, k as int);
        }
    }

    /// Decodes every row of the chunk, in write order.
    pub fn data(&self) -> (r: Result<Vec<Vec<Item>>, DecodeError>)
        ensures
            rows_result_view(r) == decode_chunk(self.types(), self.sizes@, self.data@),
    {
        let k = self.columns.len();
        let n = self.sizes.len();
        if (k == 0 && n != 0) || (k != 0 && n % k != 0) {
            return Err(DecodeError::PartialRow);
        }
        let ghost types = self.types();
        let ghost full = decode_fields(types, 0, self.sizes@, self.data@);
        let ghost mut flat: Seq<ItemV> = Seq::empty();
        let mut result: Vec<Vec<Item>> = Vec::new();
        let mut row: Vec<Item> = Vec::new();
        let mut offset: usize = 0;
        let mut i: usize = 0;
        assert(self.sizes@.skip(0) =~= self.sizes@);
        assert(self.data@.skip(0) =~= self.data@);
        assert(flat + Seq::<ItemV>::empty() =~= flat);
        assert(0 * (k as int) == 0);
        while i < n
            invariant
                k == self.columns@.len(),
                n == self.sizes@.len(),
                types == self.types(),
                whole_rows(k as nat, n as nat),
                full == decode_fields(types, 0, self.sizes@, self.data@),
                i <= n,
                offset <= self.data@.len(),
                full == prepend(
                    flat,
                    decode_fields(types, i as nat, self.sizes@.skip(i as int), self.data@.skip(offset as int)),
                ),
                flat.len() == i,
                k > 0 ==> i == result@.len() * k + row@.len(),
                k > 0 ==> row@.len() < k,
                k == 0 ==> result@.len() == 0,
                forall|r: int, j: int|
                    0 <= r < result@.len() && 0 <= j < k ==> (#[trigger] row_view(result@[r])[j])
                        == flat[r * k + j],
                forall|r: int| 0 <= r < result@.len() ==> (#[trigger] result@[r])@.len() == k,
                forall|j: int| 0 <= j < row@.len() ==> (#[trigger] row@[j])@ == flat[result@.len() * k + j],
            decreases n - i,
        {
            let len = self.sizes[i] as usize;
            let ghost rest_s = self.sizes@.skip(i as int);
            let ghost rest_d = self.data@.skip(offset as int);
            assert(rest_s[0] == self.sizes@[i as int]);
            if len > self.data.len() - offset {
                return Err(DecodeError::OutOfBounds);
            }
            let bytes = slice_subrange(self.data.as_slice(), offset, offset + len);
            assert(bytes@ =~= rest_d.take(len as int));
            let item = match self.columns[i % k].read(bytes) {
                Ok(it) => it,
                Err(e) => {
                    return Err(e);
                },
            };
            proof {
                assert(types[i as int % k as int] == self.columns@[i as int % k as int].col_type);
                assert(rest_s.drop_first() =~= self.sizes@.skip(i + 1));
                assert(rest_d.skip(len as int) =~= self.data@.skip(offset + len));
                let tail = decode_fields(types, (i + 1) as nat, rest_s.drop_first(), rest_d.skip(len as int));
                match tail {
                    Ok(t) => {
                        assert(flat + (seq![item@] + t) =~= flat.push(item@) + t);
                    },
                    Err(_) => {},
                }
            }
            let ghost before = row@.len();
            let ghost old_flat = flat;
            row.push(item);
            proof {
                flat = flat.push(item@);
                assert(row@[before as int]@ == flat[result@.len() * k + before]);
                assert forall|r: int, j: int|
                    0 <= r < result@.len() && 0 <= j < k implies (#[trigger] row_view(result@[r])[j])
                        == flat[r * k + j] by {
                    lemma_cell_in_rows(r, j, k as int, result@.len() as int);
                    assert(old_flat[r * k + j] == flat[r * k + j]);
                }
            }
            offset = offset + len;
            i = i + 1;
            if row.len() == k {
                let ghost m = result@.len();
                assert((m + 1) * k == m * k + k) by (nonlinear_arith);
                result.push(row);
                row = Vec::new();
                proof {
                    assert forall|r: int, j: int|
                        0 <= r < result@.len() && 0 <= j < k implies (#[trigger] row_view(result@[r])[j])
                            == flat[r * k + j] by {
                        lemma_cell_in_rows(r, j, k as int, result@.len() as int);
                        if r < m {
                        } else {
                            assert(result@[r]@[j]@ == flat[m * k + j]);
                        }
                    }
                }
            }
        }
        proof {
            let kk = k as int;
            assert(self.sizes@.skip(n as int) =~= Seq::<u8>::empty());
            assert(flat + Seq::<ItemV>::empty() =~= flat);
            let g = group_rows(flat, k as nat);
            if k > 0 {
                let m = result@.len() as int;
                let c = row@.len() as int;
                lemma_fundamental_div_mod_converse_mod(n as int, kk, m, c);
                assert(c == 0);
                vstd::arithmetic::div_mod::lemma_fundamental_div_mod_converse_div(n as int, kk, m, c);
                assert forall|r: int| 0 <= r < result@.len() implies #[trigger] rows_view(result@)[r]
                    == g[r] by {
                    lemma_cell_in_rows(r, 0, kk, m);
                    assert(row_view(result@[r]) =~= flat.subrange(r * kk, r * kk + kk));
                }
                assert(rows_view(result@) =~= g);
            } else {
                assert(rows_view(result@) =~= g);
            }
        }
        Ok(result)
    }
}

/// Field `j` of row `r` stands at flat index `r * k + j` once rows of `k` fields are flattened.
proof fn lemma_flatten_index(rows: Seq<Seq<ItemV>>, k: nat)
    requires
        forall|r: int| 0 <= r < rows.len() ==> (#[trigger] rows[r]).len() == k,
    ensures
        forall|r: int, j: int|
            0 <= r < rows.len() && 0 <= j < k ==> rows.flatten()[r * k + j] == #[trigger] rows[r][j],
    decreases rows.len(),
{
    if rows.len() > 0 {
        let init = rows.drop_last();
        lemma_flatten_index(init, k);
        lemma_flatten_len(init, k);
        assert(rows =~= init.push(rows.last()));
        init.lemma_flatten_push(rows.last());
        assert forall|r: int, j: int| 0 <= r < rows.len() && 0 <= j < k implies rows.flatten()[r * k
            + j] == #[trigger] rows[r][j] by {
            lemma_cell_in_rows(r, j, k as int, rows.len() as int);
            if r < init.len() {
                lemma_cell_in_rows(r, j, k as int, init.len() as int);
                assert(rows[r] == init[r]);
            }
        }
    }
}

/// Decoding the packed fields of `items` from flat index `start` gives `items` back,
/// when each item fits the column that its flat index selects.
proof fn lemma_decode_fields_round_trip(types: Seq<ColumnType>, start: nat, items: Seq<ItemV>)
    requires
        types.len() > 0,
        forall|i: int|
            0 <= i < items.len() ==> item_fits(
                types[(start + i) % types.len() as int],
                #[trigger] items[i],
            ),
    ensures
        decode_fields(types, start, fields_sizes(items), fields_data(items)) == Ok::<
            Seq<ItemV>,
            DecodeError,
        >(items),
    decreases items.len(),
{
    let sizes = fields_sizes(items);
    let data = fields_data(items);
    if items.len() == 0 {
        assert(sizes.len() == 0);
        assert(Seq::<ItemV>::empty() =~= items);
    } else {
        let x = items[0];
        let rest = items.drop_first();
        assert(items =~= seq![x] + rest);
        lemma_fields_data_concat(seq![x], rest);
        let one = seq![x].map_values(|it: ItemV| field_bytes(it));
        assert(one.len() == 1);
        one.lemma_flatten_one_element();
        assert(item_fits(types[(start + 0int) % types.len() as int], items[0]));
        lemma_field_round_trip(types[start as int % types.len() as int], x);
        let len = field_bytes(x).len();
        assert(sizes[0] == len as u8);
        assert(sizes[0] as int == len);
        assert(sizes.drop_first() =~= fields_sizes(rest));
        assert(data.take(len as int) =~= field_bytes(x));
        assert(data.skip(len as int) =~= fields_data(rest));
        assert forall|i: int| 0 <= i < rest.len() implies item_fits(
            types[((start + 1) as nat + i) % types.len() as int],
            #[trigger] rest[i],
        ) by {
            assert(rest[i] == items[i + 1]);
            assert(item_fits(types[(start + (i + 1)) % types.len() as int], items[i + 1]));
            assert((start + 1) as nat + i == start + (i + 1));
        }
        lemma_decode_fields_round_trip(types, (start + 1) as nat, rest);
        assert(seq![x] + rest =~= items);
    }
}

/// Decoding what encoding a batch of rows produced gives back exactly those rows, in order,
/// for any schema of at least one column and any rows that fit it.
pub proof fn lemma_round_trip(types: Seq<ColumnType>, rows: Seq<Seq<ItemV>>)
    requires
        types.len() > 0,
        rows_fit(types, rows),
    ensures
        decode_chunk(types, fields_sizes(rows.flatten()), fields_data(rows.flatten())) == Ok::<
            Seq<Seq<ItemV>>,
            DecodeError,
        >(rows),
{
    let k = types.len();
    let ki = k as int;
    let m = rows.len() as int;
    let flat = rows.flatten();
    assert forall|r: int| 0 <= r < rows.len() implies (#[trigger] rows[r]).len() == k by {
        assert(row_fits(types, rows[r]));
    }
    lemma_flatten_len(rows, k);
    lemma_flatten_index(rows, k);
    assert forall|i: int| 0 <= i < flat.len() implies item_fits(
        types[(0 + i) % ki],
        #[trigger] flat[i],
    ) by {
        lemma_fundamental_div_mod(i, ki);
        let r = i / ki;
        let j = i % ki;
        assert(0 <= r < m) by (nonlinear_arith)
            requires
                i == ki * r + j,
                0 <= i < m * ki,
                0 <= j < ki,
        ;
        assert(i == r * ki + j) by (nonlinear_arith)
            requires
                i == ki * r + j,
        ;
        assert(flat[r * ki + j] == rows[r][j]);
        assert(row_fits(types, rows[r]));
        assert(item_fits(types[j], rows[r][j]));
    }
    lemma_decode_fields_round_trip(types, 0, flat);
    assert(fields_sizes(flat).len() == m * ki);
    lemma_mod_multiples_basic(m, ki);
    assert(m * ki == ki * m) by (nonlinear_arith);
    lemma_div_multiples_vanish(m, ki);
    let g = group_rows(flat, k);
    assert(g.len() == m);
    assert forall|r: int| 0 <= r < m implies #[trigger] g[r] == rows[r] by {
        lemma_cell_in_rows(r, 0, ki, m);
        assert forall|j: int| 0 <= j < ki implies flat.subrange(r * ki, r * ki + ki)[j] == rows[r][j] by {
            lemma_cell_in_rows(r, j, ki, m);
        }
        assert(flat.subrange(r * ki, r * ki + ki) =~= rows[r]);
    }
    assert(g =~= rows);
}

/// Writing at least one row of a schema with at least one column strictly grows the size.
pub proof fn lemma_size_grows(
    types: Seq<ColumnType>,
    sizes0: Seq<u8>,
    data0: Seq<u8>,
    sizes1: Seq<u8>,
    data1: Seq<u8>,
    rows: Seq<Seq<ItemV>>,
    n: int,
)
    requires
        types.len() > 0,
        rows_fit(types, rows),
        wrote_prefix(sizes0, data0, sizes1, data1, rows, n),
        n > 0,
    ensures
        chunk_size(sizes1, data1) > chunk_size(sizes0, data0),
{
    let t = rows.take(n);
    assert forall|r: int| 0 <= r < t.len() implies (#[trigger] t[r]).len() == types.len() by {
        assert(row_fits(types, rows[r]));
    }
    lemma_flatten_len(t, types.len());
    assert(n * types.len() >= 1) by (nonlinear_arith)
        requires
            n > 0,
            types.len() > 0,
    ;
}

/// A successful decode yields rows of exactly one field per column, from a length table
/// that holds a whole number of rows.
pub proof fn lemma_decoded_rows_whole(types: Seq<ColumnType>, sizes: Seq<u8>, data: Seq<u8>)
    requires
        decode_chunk(types, sizes, data) is Ok,
    ensures
        whole_rows(types.len(), sizes.len()),
        forall|r: int|
            0 <= r < decode_chunk(types, sizes, data)->Ok_0.len() ==> (#[trigger] decode_chunk(
                types,
                sizes,
                data,
            )->Ok_0[r]).len() == types.len(),
{
    let rows = decode_chunk(types, sizes, data)->Ok_0;
    let k = types.len() as int;
    if k > 0 {
        let flat = decode_fields(types, 0, sizes, data)->Ok_0;
        assert forall|r: int| 0 <= r < rows.len() implies (#[trigger] rows[r]).len() == k by {
            lemma_fundamental_div_mod(flat.len() as int, k);
            let q = flat.len() as int / k;
            assert(r * k + k <= flat.len() && 0 <= r * k) by (nonlinear_arith)
                requires
                    0 <= r < q,
                    flat.len() == k * q + flat.len() as int % k,
                    flat.len() as int % k >= 0,
                    k > 0,
            ;
        }
    }
}

/// The secondary index depends on the time bucket and the ordered dimension names alone:
/// two chunks that agree on those have the same index, whatever rows they hold.
pub proof fn lemma_index_determined(a: Chunk, b: Chunk)
    requires
        a.timestamp@ == b.timestamp@,
        names_of(a.dimensions@) == names_of(b.dimensions@),
    ensures
        index_key(a.timestamp@, names_of(a.dimensions@)) == index_key(
            b.timestamp@,
            names_of(b.dimensions@),
        ),
{
}

} // verus!
