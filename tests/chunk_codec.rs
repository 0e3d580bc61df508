use dyn_ts::{AppendError, Chunk, Column, ColumnType, DecodeError, EncodeError, Hypertable, Item, LIMIT_ITEM_SIZE};

fn col(name: &str, col_type: ColumnType) -> Column {
    Column { name: name.to_string(), col_type }
}

fn weather_columns() -> Vec<Column> {
    vec![
        col("city_name", ColumnType::Text),
        col("temp_c", ColumnType::Float32),
        col("wind_speed_ms", ColumnType::Float32),
    ]
}

fn weather_rows() -> Vec<Vec<Item>> {
    vec![
        vec![
            Item::Text("HO CHI MINH".to_string()),
            Item::Float32(27.5f32.to_bits()),
            Item::Float32(6.7f32.to_bits()),
        ],
        vec![
            Item::Text("HANOI".to_string()),
            Item::Float32(17.5f32.to_bits()),
            Item::Float32(7.7f32.to_bits()),
        ],
    ]
}

fn empty_chunk(columns: Vec<Column>, dimensions: Vec<Column>) -> Chunk {
    Chunk::new("1".to_string(), "01012022".to_string(), vec![], dimensions, columns, vec![])
}

#[test]
fn weather_scenario_round_trip() {
    let mut chunk = empty_chunk(weather_columns(), vec![col("city_name", ColumnType::Text)]);
    assert_eq!(chunk.write(&weather_rows()), Ok(2));
    assert_eq!(chunk.sizes, vec![11, 4, 4, 5, 4, 4]);
    assert_eq!(chunk.data().unwrap(), weather_rows());
    assert_eq!(chunk.secondary_index(), "01012022__city_name");
    assert_eq!(chunk.size(), (11 + 4 + 4 + 5 + 4 + 4) + 6 + 9);
    match &chunk.data().unwrap()[1][1] {
        Item::Float32(bits) => assert_eq!(f32::from_bits(*bits), 17.5),
        other => panic!("unexpected {:?}", other),
    }
}

#[test]
fn float_bytes_are_big_endian() {
    let mut chunk = empty_chunk(vec![col("t", ColumnType::Float32)], vec![]);
    assert_eq!(chunk.write(&vec![vec![Item::Float32(27.5f32.to_bits())]]), Ok(1));
    assert_eq!(chunk.data, vec![0x41, 0xdc, 0x00, 0x00]);
}

#[test]
fn u32_round_trip_and_layout() {
    let mut chunk = empty_chunk(vec![col("a", ColumnType::U32), col("b", ColumnType::U32)], vec![]);
    let rows = vec![vec![Item::U32(258), Item::U32(u32::MAX)], vec![Item::U32(0), Item::U32(1)]];
    assert_eq!(chunk.write(&rows), Ok(2));
    assert_eq!(chunk.data, vec![0, 0, 1, 2, 255, 255, 255, 255, 0, 0, 0, 0, 0, 0, 0, 1]);
    assert_eq!(chunk.sizes, vec![4, 4, 4, 4]);
    assert_eq!(chunk.data().unwrap(), rows);
}

#[test]
fn empty_text_field() {
    let mut chunk = empty_chunk(vec![col("name", ColumnType::Text), col("n", ColumnType::U32)], vec![]);
    let rows = vec![vec![Item::Text(String::new()), Item::U32(7)]];
    assert_eq!(chunk.write(&rows), Ok(1));
    assert_eq!(chunk.sizes, vec![0, 4]);
    assert_eq!(chunk.data, vec![0, 0, 0, 7]);
    assert_eq!(chunk.data().unwrap(), vec![vec![Item::Text(String::new()), Item::U32(7)]]);
}

#[test]
fn text_is_one_byte_per_char() {
    let column = col("name", ColumnType::Text);
    assert_eq!(column.read(&[72, 233, 0]), Ok(Item::Text("H\u{e9}\u{0}".to_string())));
    let mut chunk = empty_chunk(vec![column], vec![]);
    assert_eq!(chunk.write(&vec![vec![Item::Text("caf\u{e9}".to_string())]]), Ok(1));
    assert_eq!(chunk.data, vec![99, 97, 102, 233]);
    assert_eq!(chunk.sizes, vec![4]);
}

#[test]
fn read_u32_field() {
    let column = col("n", ColumnType::U32);
    assert_eq!(column.read(&[0, 0, 1, 2]), Ok(Item::U32(258)));
    assert_eq!(column.read(&[1, 2, 3]), Err(DecodeError::FieldWidth));
    assert_eq!(column.read(&[1, 2, 3, 4, 5]), Err(DecodeError::FieldWidth));
}

#[test]
fn decode_rejects_partial_row() {
    let chunk = Chunk::new("1".to_string(), "t".to_string(), vec![4, 4, 4], vec![], vec![
        col("a", ColumnType::U32),
        col("b", ColumnType::U32),
    ], vec![0; 12]);
    assert_eq!(chunk.data(), Err(DecodeError::PartialRow));
    let no_columns = Chunk::new("1".to_string(), "t".to_string(), vec![4], vec![], vec![], vec![0; 4]);
    assert_eq!(no_columns.data(), Err(DecodeError::PartialRow));
}

#[test]
fn decode_rejects_out_of_bounds() {
    let chunk = Chunk::new("1".to_string(), "t".to_string(), vec![4, 4], vec![], vec![
        col("a", ColumnType::U32),
        col("b", ColumnType::U32),
    ], vec![0; 6]);
    assert_eq!(chunk.data(), Err(DecodeError::OutOfBounds));
}

#[test]
fn decode_rejects_short_fixed_field() {
    let chunk = Chunk::new("1".to_string(), "t".to_string(), vec![3], vec![], vec![col("a", ColumnType::U32)], vec![0; 3]);
    assert_eq!(chunk.data(), Err(DecodeError::FieldWidth));
}

#[test]
fn write_refuses_misfit_rows() {
    let mut chunk = empty_chunk(weather_columns(), vec![]);
    let mut rows = weather_rows();
    rows[1].pop();
    assert_eq!(chunk.write(&rows), Err(EncodeError::InvalidRow(1)));
    assert!(chunk.sizes.is_empty() && chunk.data.is_empty());
    let wrong_type = vec![vec![Item::U32(1), Item::Float32(0), Item::Float32(0)]];
    assert_eq!(chunk.write(&wrong_type), Err(EncodeError::InvalidRow(0)));
    let wide = vec![vec![Item::Text("\u{20ac}".to_string()), Item::Float32(0), Item::Float32(0)]];
    assert_eq!(chunk.write(&wide), Err(EncodeError::InvalidRow(0)));
    let long = vec![vec![Item::Text("x".repeat(256)), Item::Float32(0), Item::Float32(0)]];
    assert_eq!(chunk.write(&long), Err(EncodeError::InvalidRow(0)));
    let longest = vec![vec![Item::Text("x".repeat(255)), Item::Float32(0), Item::Float32(0)]];
    assert_eq!(chunk.write(&longest), Ok(1));
    assert_eq!(chunk.sizes, vec![255, 4, 4]);
}

#[test]
fn size_grows_with_each_row() {
    let mut chunk = empty_chunk(weather_columns(), vec![]);
    assert_eq!(chunk.size(), 9);
    let mut last = chunk.size();
    for row in weather_rows() {
        assert_eq!(chunk.write(&vec![row]), Ok(1));
        assert!(chunk.size() > last);
        last = chunk.size();
    }
    assert_eq!(last, 9 + 19 + 3 + 13 + 3);
}

#[test]
fn write_stops_before_the_limit() {
    let mut chunk = empty_chunk(vec![col("name", ColumnType::Text)], vec![]);
    let row = vec![Item::Text("y".repeat(255))];
    let rows: Vec<Vec<Item>> = (0..1600).map(|_| row.clone()).collect();
    // each row adds 256 bytes to a size that starts at 9
    assert_eq!(chunk.write(&rows), Ok(1562));
    assert_eq!(chunk.size() as usize, 9 + 1562 * 256);
    assert!(chunk.size() as usize <= LIMIT_ITEM_SIZE);
    assert!(chunk.size() as usize + 256 > LIMIT_ITEM_SIZE);
    assert_eq!(chunk.write(&rows), Ok(0));
    assert_eq!(chunk.data().unwrap().len(), 1562);
}

#[test]
fn secondary_index_ignores_rows() {
    let dims = || vec![col("city_name", ColumnType::Text), col("station", ColumnType::U32)];
    let mut a = empty_chunk(weather_columns(), dims());
    let b = empty_chunk(weather_columns(), dims());
    assert_eq!(a.write(&weather_rows()), Ok(2));
    assert_eq!(a.secondary_index(), b.secondary_index());
    assert_eq!(a.secondary_index(), "01012022__city_name_station");
    let none = empty_chunk(weather_columns(), vec![]);
    assert_eq!(none.secondary_index(), "01012022__");
}

#[test]
fn hypertable_rolls_over_to_new_chunk() {
    let mut table = Hypertable::with_dimensions("weather".to_string(), vec![col("name", ColumnType::Text)], vec![
        col("name", ColumnType::Text),
    ]);
    let row = vec![Item::Text("z".repeat(255))];
    let rows: Vec<Vec<Item>> = (0..1563).map(|_| row.clone()).collect();
    assert_eq!(table.append(&"01012022".to_string(), &rows), Ok(()));
    let chunks = table.all_chunks();
    assert_eq!(chunks.len(), 2);
    assert_eq!(chunks[0].sizes.len(), 1562);
    assert_eq!(chunks[1].sizes.len(), 1);
    assert_eq!(chunks[0].id, "weather-0");
    assert_eq!(chunks[1].id, "weather-1");
    assert_eq!(chunks[1].data().unwrap(), vec![row.clone()]);
    assert_eq!(table.chunks_for(&"01012022__name".to_string()), vec![0, 1]);
    assert_eq!(table.chunks_for(&"02012022__name".to_string()), Vec::<usize>::new());
}

#[test]
fn hypertable_opens_chunk_for_new_bucket() {
    let mut table = Hypertable::new("w".to_string(), vec![col("n", ColumnType::U32)]);
    assert!(table.all_chunks().is_empty());
    assert_eq!(table.append_row(&"a".to_string(), &vec![Item::U32(1)]), Ok(()));
    assert_eq!(table.append_row(&"a".to_string(), &vec![Item::U32(2)]), Ok(()));
    assert_eq!(table.append_row(&"b".to_string(), &vec![Item::U32(3)]), Ok(()));
    let chunks = table.all_chunks();
    assert_eq!(chunks.len(), 2);
    assert_eq!(chunks[0].data().unwrap(), vec![vec![Item::U32(1)], vec![Item::U32(2)]]);
    assert_eq!(chunks[1].timestamp, "b");
    assert_eq!(chunks[1].secondary_index(), "b__");
}

#[test]
fn hypertable_reports_bad_rows() {
    let mut table = Hypertable::new("w".to_string(), vec![col("n", ColumnType::U32)]);
    let rows = vec![vec![Item::U32(1)], vec![Item::Text("x".to_string())]];
    assert_eq!(table.append(&"a".to_string(), &rows), Err((1, AppendError::InvalidRow)));
    assert_eq!(table.all_chunks().len(), 1);
    assert_eq!(table.all_chunks()[0].sizes, vec![4]);

    let wide: Vec<Column> = (0..1600).map(|i| col(&format!("c{}", i), ColumnType::Text)).collect();
    let mut big = Hypertable::new("big".to_string(), wide);
    let row: Vec<Item> = (0..1600).map(|_| Item::Text("q".repeat(255))).collect();
    assert_eq!(big.append_row(&"a".to_string(), &row), Err(AppendError::RowTooLarge));
    assert!(big.all_chunks().is_empty());
}
