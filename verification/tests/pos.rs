use pos::point::Point;
use pos::pos::{is_angle_field, Reader, ReaderIterator, FIELD_COUNT};
use pos::units::{Binary64, Radians};
use pos::Error;

const HEADER: &str = "time lat lon alt roll pitch yaw";

fn parse(field: &[u8]) -> Option<f64> {
    std::str::from_utf8(field).ok()?.parse().ok()
}

fn values_of(fields: &[Vec<u8>]) -> Vec<Option<Binary64>> {
    let mut values = Vec::new();
    for (index, field) in fields.iter().enumerate() {
        let value = parse(field).map(|number| {
            if is_angle_field(index) {
                number.to_radians()
            } else {
                number
            }
        });
        values.push(value.map(|number| Binary64::from_bits(number.to_bits())));
    }
    values
}

fn read(reader: &mut Reader) -> Result<Option<Point>, Error> {
    let values = values_of(&reader.fields());
    reader.read_point(&values)
}

fn next(iter: &mut ReaderIterator) -> Option<Result<Point, Error>> {
    let values = values_of(&iter.fields());
    iter.next(&values)
}

fn number(value: Binary64) -> f64 {
    f64::from_bits(value.to_bits())
}

fn angle(value: Radians) -> f64 {
    number(value.0)
}

fn reader_of(text: &str) -> Reader {
    Reader::new(text.as_bytes().to_vec())
}

fn texts(fields: &[Vec<u8>]) -> Vec<String> {
    fields.iter().map(|field| String::from_utf8(field.clone()).unwrap()).collect()
}

#[test]
fn point_count() {
    let mut text = String::from("  GPSTime    Latitude   Longitude   H-Ell   Roll   Pitch   Heading\n");
    for index in 0..722800 {
        text.push_str(&format!(
            "{}.{:03} 45.{:06} -93.{:06} 300.125 0.5 -0.25 179.0\n",
            400000 + index / 200,
            (index % 200) * 5,
            index,
            index
        ));
    }
    let mut iter = Reader::new(text.into_bytes()).into_iter();
    let mut points = Vec::new();
    while let Some(item) = next(&mut iter) {
        points.push(item.unwrap());
    }
    assert_eq!(722800, points.len());
}

#[test]
fn one_data_line_gives_one_point() {
    let mut reader = reader_of("time lat lon alt roll pitch yaw\n0.0 45.0 -93.0 300.0 0.0 0.0 0.0\n");
    let point = read(&mut reader).unwrap().unwrap();
    assert_eq!(0.0, number(point.time));
    assert!((angle(point.latitude) - 0.785398).abs() < 1e-6);
    assert!((angle(point.longitude) - -1.623156).abs() < 1e-6);
    assert_eq!(45.0f64.to_radians(), angle(point.latitude));
    assert_eq!((-93.0f64).to_radians(), angle(point.longitude));
    assert_eq!(300.0, number(point.altitude));
    assert_eq!(0.0, angle(point.roll));
    assert_eq!(0.0, angle(point.pitch));
    assert_eq!(0.0, angle(point.yaw));
    assert_eq!(None, point.x_velocity);
    assert_eq!(None, point.y_velocity);
    assert_eq!(None, point.z_velocity);
    assert_eq!(None, point.wander_angle);
    assert_eq!(None, point.x_acceleration);
    assert_eq!(None, point.y_acceleration);
    assert_eq!(None, point.z_acceleration);
    assert_eq!(None, point.x_angular_rate);
    assert_eq!(None, point.y_angular_rate);
    assert_eq!(None, point.z_angular_rate);
    assert_eq!(Ok(None), read(&mut reader));
}

#[test]
fn each_field_goes_to_its_place() {
    let mut reader = reader_of("h\n1 2 3 4 5 6 7\n");
    let point = read(&mut reader).unwrap().unwrap();
    assert_eq!(1.0, number(point.time));
    assert_eq!(2.0f64.to_radians(), angle(point.latitude));
    assert_eq!(3.0f64.to_radians(), angle(point.longitude));
    assert_eq!(4.0, number(point.altitude));
    assert_eq!(5.0f64.to_radians(), angle(point.roll));
    assert_eq!(6.0f64.to_radians(), angle(point.pitch));
    assert_eq!(7.0f64.to_radians(), angle(point.yaw));
}

#[test]
fn values_are_taken_as_they_are_given() {
    let mut reader = reader_of("h\na b c d e f g\n");
    let values: Vec<Option<Binary64>> =
        (1..=7).map(|index| Some(Binary64::from_bits(index))).collect();
    let point = reader.read_point(&values).unwrap().unwrap();
    assert_eq!(1, point.time.to_bits());
    assert_eq!(Radians(Binary64::from_bits(2)), point.latitude);
    assert_eq!(Radians(Binary64::from_bits(3)), point.longitude);
    assert_eq!(4, point.altitude.to_bits());
    assert_eq!(Radians(Binary64::from_bits(5)), point.roll);
    assert_eq!(Radians(Binary64::from_bits(6)), point.pitch);
    assert_eq!(Radians(Binary64::from_bits(7)), point.yaw);
    let expected = Point {
        time: Binary64::from_bits(1),
        latitude: Radians(Binary64::from_bits(2)),
        longitude: Radians(Binary64::from_bits(3)),
        altitude: Binary64::from_bits(4),
        roll: Radians(Binary64::from_bits(5)),
        pitch: Radians(Binary64::from_bits(6)),
        yaw: Radians(Binary64::from_bits(7)),
        ..Point::default()
    };
    assert_eq!(expected, point);
}

#[test]
fn the_angles_are_latitude_longitude_roll_pitch_and_yaw() {
    let angles: Vec<bool> = (0..9).map(is_angle_field).collect();
    assert_eq!(vec![false, true, true, false, true, true, true, false, false], angles);
    assert_eq!(7, FIELD_COUNT);
}

#[test]
fn data_lines_give_their_points_in_file_order() {
    let mut text = String::from(HEADER);
    text.push('\n');
    for index in 0..25 {
        text.push_str(&format!("{} {} {} {} 1 2 3\n", index, 10 + index, -index, 100 * index));
    }
    let mut reader = Reader::new(text.into_bytes());
    for index in 0..25 {
        let point = read(&mut reader).unwrap().unwrap();
        assert_eq!(index as f64, number(point.time));
        assert_eq!((10.0 + index as f64).to_radians(), angle(point.latitude));
        assert_eq!((-(index as f64)).to_radians(), angle(point.longitude));
        assert_eq!(100.0 * index as f64, number(point.altitude));
        assert_eq!(1.0f64.to_radians(), angle(point.roll));
        assert_eq!(2.0f64.to_radians(), angle(point.pitch));
        assert_eq!(3.0f64.to_radians(), angle(point.yaw));
    }
    assert_eq!(Ok(None), read(&mut reader));
}

#[test]
fn the_fields_of_the_next_record_are_shown() {
    let mut reader = reader_of("h\n 1.5\t-2e3   x \r\n7 8 9 10 11 12 13 14\n");
    assert_eq!(vec!["1.5", "-2e3", "x"], texts(&reader.fields()));
    assert_eq!(vec!["1.5", "-2e3", "x"], texts(&reader.fields()));
    assert!(read(&mut reader).is_err());
    assert!(reader.fields().is_empty());

    let mut reader = reader_of("h\n7 8 9 10 11 12 13 14\n1 2 3 4 5 6 7\n");
    assert_eq!(8, reader.fields().len());
    assert!(read(&mut reader).unwrap().is_some());
    assert_eq!(vec!["1", "2", "3", "4", "5", "6", "7"], texts(&reader.fields()));
}

#[test]
fn whitespace_of_any_kind_separates_fields() {
    let mut reader = reader_of("h\n\t1  2\u{b}3\u{c}4\r5 \t 6   7 \r\n");
    assert_eq!(vec!["1", "2", "3", "4", "5", "6", "7"], texts(&reader.fields()));
    let point = read(&mut reader).unwrap().unwrap();
    assert_eq!(7.0f64.to_radians(), angle(point.yaw));
}

#[test]
fn five_fields_of_seven_are_an_error_that_names_the_sixth() {
    let mut reader = reader_of("time lat lon alt roll pitch yaw\n0.0 45.0 -93.0 300.0 0.0\n");
    assert_eq!(Err(Error::FieldParse { line: 1, field: 5 }), read(&mut reader));
}

#[test]
fn a_field_that_is_no_number_is_an_error_that_names_it() {
    for bad in 0..7 {
        let mut fields = vec!["1"; 7];
        fields[bad] = "north";
        let text = format!("h\n{}\n", fields.join(" "));
        let mut reader = reader_of(&text);
        assert_eq!(Err(Error::FieldParse { line: 1, field: bad }), read(&mut reader));
    }
}

#[test]
fn the_first_bad_field_is_the_one_named() {
    let mut reader = reader_of("h\n1 2 x 4 5\n");
    assert_eq!(Err(Error::FieldParse { line: 1, field: 2 }), read(&mut reader));
    let mut reader = reader_of("h\n1 2 3 4 y z\n");
    assert_eq!(Err(Error::FieldParse { line: 1, field: 4 }), read(&mut reader));
}

#[test]
fn an_error_names_the_line_of_its_record() {
    let mut reader = reader_of("h\n1 2 3 4 5 6 7\n1 2 3 4 5 6 7\n1 2 3\n");
    assert!(read(&mut reader).unwrap().is_some());
    assert!(read(&mut reader).unwrap().is_some());
    assert_eq!(Err(Error::FieldParse { line: 3, field: 3 }), read(&mut reader));
}

#[test]
fn an_error_ends_the_records() {
    let mut reader = reader_of("h\n1 2 3\n1 2 3 4 5 6 7\n");
    assert!(read(&mut reader).is_err());
    assert_eq!(Ok(None), read(&mut reader));
    assert_eq!(Ok(None), read(&mut reader));
}

#[test]
fn a_field_that_the_line_lacks_is_missing_whatever_is_given() {
    let mut reader = reader_of("h\n1 2 3 4 5\n");
    let values = vec![Some(Binary64::from_bits(0)); 7];
    assert_eq!(Err(Error::FieldParse { line: 1, field: 5 }), reader.read_point(&values));
}

#[test]
fn a_value_that_is_not_given_is_missing() {
    let mut reader = reader_of("h\n1 2 3 4 5 6 7\n");
    let values = vec![Some(Binary64::from_bits(0)); 4];
    assert_eq!(Err(Error::FieldParse { line: 1, field: 4 }), reader.read_point(&values));
    let mut reader = reader_of("h\n1 2 3 4 5 6 7\n");
    assert_eq!(Err(Error::FieldParse { line: 1, field: 0 }), reader.read_point(&Vec::new()));
}

#[test]
fn fields_after_the_seventh_are_ignored() {
    let mut reader = reader_of("h\n1 2 3 4 5 6 7 east 9\n");
    let point = read(&mut reader).unwrap().unwrap();
    assert_eq!(7.0f64.to_radians(), angle(point.yaw));
}

#[test]
fn the_end_of_the_records_is_reported_again_and_again() {
    let mut reader = reader_of("h\n1 2 3 4 5 6 7\n");
    assert!(read(&mut reader).unwrap().is_some());
    for _ in 0..4 {
        assert_eq!(Ok(None), read(&mut reader));
        assert!(reader.fields().is_empty());
    }
    let values = vec![Some(Binary64::from_bits(0)); 7];
    assert_eq!(Ok(None), reader.read_point(&values));
}

#[test]
fn a_blank_line_ends_the_records() {
    let mut reader = reader_of("h\n1 2 3 4 5 6 7\n\n1 2 3 4 5 6 7\n");
    assert!(read(&mut reader).unwrap().is_some());
    assert_eq!(Ok(None), read(&mut reader));
    assert_eq!(Ok(None), read(&mut reader));

    let mut reader = reader_of("h\n \t \r\n1 2 3 4 5 6 7\n");
    assert_eq!(Ok(None), read(&mut reader));
    assert_eq!(Ok(None), read(&mut reader));
}

#[test]
fn the_header_is_skipped_whatever_it_holds() {
    for header in ["", "1 2 3 4 5 6 7", "   ", "\u{0} \u{ff}", "no numbers here"] {
        let text = format!("{}\n8 2 3 4 5 6 7\n", header);
        let mut reader = reader_of(&text);
        let point = read(&mut reader).unwrap().unwrap();
        assert_eq!(8.0, number(point.time));
        assert_eq!(Ok(None), read(&mut reader));
    }
}

#[test]
fn a_source_without_data_lines_has_no_point() {
    for text in ["", "h", "h\n", "\n", "h\n\n\n"] {
        let mut reader = reader_of(text);
        assert!(reader.fields().is_empty());
        assert_eq!(Ok(None), read(&mut reader));
        assert_eq!(Ok(None), read(&mut reader));
    }
}

#[test]
fn the_last_line_needs_no_newline() {
    let mut reader = reader_of("h\n1 2 3 4 5 6 7\n8 2 3 4 5 6 7");
    assert_eq!(1.0, number(read(&mut reader).unwrap().unwrap().time));
    assert_eq!(8.0, number(read(&mut reader).unwrap().unwrap().time));
    assert_eq!(Ok(None), read(&mut reader));
}

#[test]
fn bytes_that_are_no_text_are_no_number() {
    let mut source = b"h\n1 2 ".to_vec();
    source.extend_from_slice(&[0xff, 0xfe]);
    source.extend_from_slice(b" 4 5 6 7\n");
    let mut reader = Reader::new(source);
    assert_eq!(vec![0xff, 0xfe], reader.fields()[2]);
    assert_eq!(Err(Error::FieldParse { line: 1, field: 2 }), read(&mut reader));
}

#[test]
fn the_sequence_of_a_source_yields_each_point_and_then_ends() {
    let mut iter = reader_of("h\n1 2 3 4 5 6 7\n8 2 3 4 5 6 7\n").into_iter();
    assert_eq!(7, iter.fields().len());
    assert_eq!(Some(1.0), next(&mut iter).map(|item| number(item.unwrap().time)));
    assert_eq!(Some(8.0), next(&mut iter).map(|item| number(item.unwrap().time)));
    assert_eq!(None, next(&mut iter));
    assert_eq!(None, next(&mut iter));
}

#[test]
fn the_sequence_of_a_source_hands_an_error_to_its_consumer() {
    let mut iter = reader_of("h\n1 2 3 4 5 6 7\n1 2 3 4 5 six 7\n1 2 3 4 5 6 7\n").into_iter();
    assert!(matches!(next(&mut iter), Some(Ok(_))));
    assert_eq!(Some(Err(Error::FieldParse { line: 2, field: 5 })), next(&mut iter));
    assert_eq!(None, next(&mut iter));
}

#[test]
fn the_sequence_of_a_source_starts_where_the_reader_stood() {
    let mut reader = reader_of("h\n1 2 3 4 5 6 7\n8 2 3 4 5 6 7\n");
    assert!(read(&mut reader).unwrap().is_some());
    let mut iter = reader.into_iter();
    assert_eq!(Some(8.0), next(&mut iter).map(|item| number(item.unwrap().time)));
    assert_eq!(None, next(&mut iter));
}

#[test]
fn fields_are_the_words_between_whitespace() {
    let alphabet = [' ', ' ', '\t', '\r', '\u{b}', '\u{c}', '1', '2', '.', '-', 'e', 'x'];
    let mut state = 0x9e37_79b9_7f4a_7c15u64;
    for length in 0..200 {
        let mut line = String::new();
        for _ in 0..length % 40 {
            state = state.wrapping_mul(6364136223846793005).wrapping_add(1442695040888963407);
            line.push(alphabet[(state >> 33) as usize % alphabet.len()]);
        }
        let reader = reader_of(&format!("header\n{}\nnext line\n", line));
        let expected: Vec<&str> = line.split_whitespace().collect();
        assert_eq!(expected, texts(&reader.fields()));
    }
}
