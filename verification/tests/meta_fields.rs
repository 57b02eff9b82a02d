use red_black_knights::meta_fields::{meta_array_u32, meta_field_bool, meta_field_usize, parse_usize};

const META: &str = "placements = 1234
turn_step = 1300
checksum = 999
target_index = 0
settled = true
max_placement_index = 5000
recipe_id = \"knight_2_pairwise\"
grid_cells = [
    41,
    43,
]
cell_pixel_scale = 8
image_pixels = [
    328,
    344,
]

[bounds]
min_x = -20
max_x = 20
";

fn reference_usize(text: &str, key: &str) -> usize {
    let prefix = format!("{key} = ");
    text.lines()
        .find_map(|line| line.strip_prefix(&prefix).and_then(|v| v.parse().ok()))
        .unwrap_or(0)
}

fn reference_bool(text: &str, key: &str) -> bool {
    let prefix = format!("{key} = ");
    text.lines()
        .find_map(|line| line.strip_prefix(&prefix).and_then(|v| v.parse().ok()))
        .unwrap_or(false)
}

fn reference_array(text: &str, table: &str, index: usize) -> u32 {
    let mut in_table = false;
    let mut values = Vec::new();
    for line in text.lines() {
        if line.trim() == format!("{table} = [") {
            in_table = true;
            continue;
        }
        if in_table {
            if line.trim() == "]" {
                break;
            }
            if let Some(v) = line.trim().trim_end_matches(',').parse().ok() {
                values.push(v);
            }
        }
    }
    values.get(index).copied().unwrap_or(0)
}

#[test]
fn reads_scalar_fields() {
    assert_eq!(meta_field_usize(META, "placements"), 1234);
    assert_eq!(meta_field_usize(META, "turn_step"), 1300);
    assert_eq!(meta_field_usize(META, "max_placement_index"), 5000);
    assert_eq!(meta_field_usize(META, "missing"), 0);
    assert_eq!(meta_field_usize(META, "recipe_id"), 0);
    assert!(meta_field_bool(META, "settled"));
    assert!(!meta_field_bool(META, "placements"));
    assert!(!meta_field_bool(META, "missing"));
}

#[test]
fn reads_array_entries() {
    assert_eq!(meta_array_u32(META, "grid_cells", 0), 41);
    assert_eq!(meta_array_u32(META, "grid_cells", 1), 43);
    assert_eq!(meta_array_u32(META, "grid_cells", 2), 0);
    assert_eq!(meta_array_u32(META, "image_pixels", 1), 344);
    assert_eq!(meta_array_u32(META, "nothing", 0), 0);
}

#[test]
fn matches_line_based_reading_on_awkward_text() {
    let texts = [
        META,
        "",
        "\n\n",
        "a = 1\r\nb = true\r\nc = [\r\n 7,\r\n x,\r\n 8,,\r\n]\r\nc = [\r\n9,\r\n]",
        "a = +5\na = 6\nb = True\nb = false",
        "a = 99999999999999999999999\na = 3",
        "c = [\nc = [\n1,\n]\n2,",
        "c = [\n 4 ,\n5\n",
        "a =1\n a = 2\na = 3\n",
    ];
    for text in texts {
        for key in ["a", "b", "placements", "settled", "grid_cells"] {
            assert_eq!(meta_field_usize(text, key), reference_usize(text, key), "{text:?} {key}");
            assert_eq!(meta_field_bool(text, key), reference_bool(text, key), "{text:?} {key}");
        }
        for table in ["c", "grid_cells", "image_pixels"] {
            for index in 0..4 {
                assert_eq!(
                    meta_array_u32(text, table, index),
                    reference_array(text, table, index),
                    "{text:?} {table} {index}"
                );
            }
        }
    }
}

#[test]
fn parse_usize_matches_str_parse() {
    for s in ["0", "18446744073709551615", "18446744073709551616", "+3", "", "-1", "1 "] {
        assert_eq!(parse_usize(s), s.parse::<usize>().ok(), "{s:?}");
    }
}
