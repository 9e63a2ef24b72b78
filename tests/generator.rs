use rowstats::generator::{ArgPreset, Generator, Row};

#[test]
fn presets_name_their_files() {
    assert_eq!(ArgPreset::Full.output(), "data/all_cities.txt");
    assert_eq!(ArgPreset::Test.output(), "data/test.txt");
    assert_eq!(ArgPreset::Cities400.output(), "data/citeis_400.txt");
    assert_eq!(ArgPreset::Full.result_output(), "data/all_cities_res.txt");
    assert_eq!(ArgPreset::Test.result_output(), "data/test_res.txt");
    assert_eq!(ArgPreset::Cities400.result_output(), "data/citeis_400_res.txt");
}

#[test]
fn presets_fix_the_sizes() {
    assert_eq!(ArgPreset::Full.city_count(), 10_000);
    assert_eq!(ArgPreset::Cities400.city_count(), 400);
    assert_eq!(ArgPreset::Test.city_count(), 10);
    assert_eq!(ArgPreset::Full.line_count(), 1_000_000_000);
    assert_eq!(ArgPreset::Cities400.line_count(), 1_000_000_000);
    assert_eq!(ArgPreset::Test.line_count(), 1_000);
    for p in [ArgPreset::Full, ArgPreset::Cities400, ArgPreset::Test] {
        assert_eq!(p.city_len(), 5);
        assert_eq!(p.min_value(), -99);
        assert_eq!(p.max_value(), 99);
        assert_eq!(p.fractional_digit(), 1);
    }
}

#[test]
fn generator_fraction_range() {
    let cities = vec!["a".to_string(), "b".to_string()];
    let g = Generator::new(cities.clone(), -5, 5, 1);
    assert_eq!(g.fraction_max, 9);
    assert_eq!(g.cities, cities);
    assert_eq!((g.min, g.max), (-5, 5));
    assert_eq!(Generator::new(cities.clone(), 0, 1, 0).fraction_max, 0);
    assert_eq!(Generator::new(cities, 0, 1, 3).fraction_max, 999);
}

#[test]
fn generator_rows_from_draws() {
    let cities = vec!["a".to_string(), "b".to_string()];
    let g = Generator::new(cities.clone(), -5, 5, 1);
    assert_eq!(g.row(1, -3, 7), Row { city: 1, int_value: -3, fraction: Some(7) });
    let whole = Generator::new(cities, -5, 5, 0);
    assert_eq!(whole.row(0, 4, 0), Row { city: 0, int_value: 4, fraction: None });
}

#[test]
fn rows_render_as_input_lines() {
    let r = Row { city: 0, int_value: -3, fraction: Some(5) };
    assert_eq!(r.render(b"Paris", 1), b"Paris;-3.5".to_vec());
    assert_eq!(r.value(1), -35);
    let r = Row { city: 0, int_value: 12, fraction: Some(7) };
    assert_eq!(r.render(b"Oslo", 3), b"Oslo;12.007".to_vec());
    assert_eq!(r.value(3), 12007);
    let r = Row { city: 0, int_value: 0, fraction: None };
    assert_eq!(r.render(b"x", 0), b"x;0".to_vec());
    assert_eq!(r.value(0), 0);
}

#[test]
fn rendered_rows_summarize_to_their_values() {
    let g = Generator::new(vec!["Paris".to_string()], -99, 99, 1);
    let rows = [g.row(0, -2, 0), g.row(0, 3, 0), g.row(0, 7, 0)];
    let mut text = Vec::new();
    for r in &rows {
        text.extend_from_slice(&r.render(g.cities[r.city].as_bytes(), 1));
        text.push(b'\n');
    }
    let out = rowstats::summarize(&text, rowstats::BLOCK_SIZE, 1).unwrap();
    assert_eq!(String::from_utf8(out).unwrap(), "{Paris=-2.0/2.7/7.0}");
}

#[test]
fn generated_file_matches_expected_summary() {
    let cities: Vec<String> = ["Oslo", "Paris", "Rome", "Bern"].iter().map(|c| c.to_string()).collect();
    let g = Generator::new(cities, -99, 99, 1);
    let mut expected = rowstats::PartialResult::new();
    let mut text = Vec::new();
    let mut state: u64 = 12345;
    for _ in 0..500 {
        state = state.wrapping_mul(6364136223846793005).wrapping_add(1442695040888963407);
        let city = (state >> 33) as usize % g.cities.len();
        let int_value = ((state >> 20) % 199) as i32 - 99;
        let fraction = (state >> 8) % (g.fraction_max + 1);
        let row = g.row(city, int_value, fraction);
        expected.record(g.cities[row.city].as_bytes(), row.value(1)).unwrap();
        text.extend_from_slice(&row.render(g.cities[row.city].as_bytes(), 1));
        text.push(b'\n');
    }
    let want = rowstats::format_result(&expected, 1);
    for block in [64usize, 100, rowstats::BLOCK_SIZE] {
        assert_eq!(rowstats::summarize(&text, block, 1).unwrap(), want);
    }
}
