use hex_viewer::{is_index_selected, FieldSlice, HexViewer, InputBase};

#[test]
fn viewer_opens_empty_in_hex() {
    let v = HexViewer::default();
    assert_eq!(v.value, 0);
    assert_eq!(v.input, "");
    assert_eq!(v.base, InputBase::Hex);
    assert_eq!(v.selection_start, None);
    assert_eq!(v.selection_end, None);
    assert!(!v.is_always_on_top);
    assert!(!v.show_bit_fields);
    assert_eq!(v.bit_field_config, "4:20:8");
}

#[test]
fn format_input_for_base_goes_by_the_base() {
    let mut v = HexViewer::default();
    assert_eq!(v.format_input_for_base(255), "FF");
    assert_eq!(v.format_input_for_base(0), "0");
    v.base = InputBase::Dec;
    assert_eq!(v.format_input_for_base(255), "255");
    assert_eq!(v.format_input_for_base(0), "0");
}

#[test]
fn typed_text_with_a_value_is_normalised() {
    let mut v = HexViewer::default();
    v.input = "  0x00ff zz".to_string();
    v.input_changed();
    assert_eq!(v.value, 255);
    assert_eq!(v.input, "FF");
    v.input_changed();
    assert_eq!(v.value, 255);
    assert_eq!(v.input, "FF");
}

#[test]
fn typed_text_without_a_value_stays_as_typed() {
    let mut v = HexViewer::default();
    v.input = "1f".to_string();
    v.input_changed();
    assert_eq!(v.value, 0x1F);
    v.input = "zz".to_string();
    v.input_changed();
    assert_eq!(v.value, 0x1F);
    assert_eq!(v.input, "zz");
    v.base = InputBase::Dec;
    v.input = "99999999999999999999".to_string();
    v.input_changed();
    assert_eq!(v.value, 0x1F);
    assert_eq!(v.input, "99999999999999999999");
}

#[test]
fn changing_the_base_rewrites_the_text_from_the_value() {
    let mut v = HexViewer::default();
    v.input = "ff".to_string();
    v.input_changed();
    v.input = "stale".to_string();
    v.select_base(InputBase::Dec);
    assert_eq!(v.base, InputBase::Dec);
    assert_eq!(v.value, 255);
    assert_eq!(v.input, "255");
    v.select_base(InputBase::Hex);
    assert_eq!(v.input, "FF");
}

#[test]
fn choosing_the_same_base_leaves_the_text_alone() {
    let mut v = HexViewer::default();
    v.input = "typing".to_string();
    v.select_base(InputBase::Hex);
    assert_eq!(v.base, InputBase::Hex);
    assert_eq!(v.input, "typing");
    assert_eq!(v.value, 0);
}

#[test]
fn toggling_a_bit_rewrites_the_text() {
    let mut v = HexViewer::default();
    v.toggle_bit(4);
    assert_eq!(v.value, 16);
    assert_eq!(v.input, "10");
    v.toggle_bit(63);
    assert_eq!(v.value, 0x8000_0000_0000_0010);
    assert_eq!(v.input, "8000000000000010");
    v.toggle_bit(63);
    v.toggle_bit(4);
    assert_eq!(v.value, 0);
    assert_eq!(v.input, "0");
    v.base = InputBase::Dec;
    v.toggle_bit(10);
    assert_eq!(v.input, "1024");
}

#[test]
fn pin_and_view_switch_back_and_forth() {
    let mut v = HexViewer::default();
    assert!(v.toggle_always_on_top());
    assert!(v.is_always_on_top);
    assert!(!v.toggle_always_on_top());
    assert!(!v.is_always_on_top);
    v.toggle_view();
    assert!(v.show_bit_fields);
    v.toggle_view();
    assert!(!v.show_bit_fields);
    assert_eq!(v.value, 0);
    assert_eq!(v.input, "");
}

#[test]
fn viewer_fields_follow_value_and_configuration() {
    let mut v = HexViewer::default();
    v.value = 0x1_2345_6789;
    let slices = v.fields();
    assert_eq!(slices.len(), 3);
    assert_eq!(
        slices[0],
        FieldSlice { width: 4, high_bit: 31, low_bit: 28, masked_value: 2 }
    );
    v.bit_field_config = "nothing".to_string();
    assert_eq!(v.fields(), Vec::<FieldSlice>::new());
    v.bit_field_config = "16 16".to_string();
    let halves = v.fields();
    assert_eq!(halves[0].masked_value, 0x2345);
    assert_eq!(halves[1].masked_value, 0x6789);
}

#[test]
fn grid_cells_show_the_bits_from_the_top() {
    let mut v = HexViewer::default();
    v.value = 0x8000_0000_0000_0001;
    assert!(v.cell_is_set(0));
    assert!(v.cell_is_set(63));
    for index in 1..63 {
        assert!(!v.cell_is_set(index));
    }
}

#[test]
fn selection_spans_both_ends_in_either_order() {
    assert!(is_index_selected(3, Some(2), Some(5)));
    assert!(is_index_selected(2, Some(2), Some(5)));
    assert!(is_index_selected(5, Some(2), Some(5)));
    assert!(!is_index_selected(1, Some(2), Some(5)));
    assert!(!is_index_selected(6, Some(2), Some(5)));
    assert!(is_index_selected(3, Some(5), Some(2)));
    assert!(is_index_selected(5, Some(5), Some(2)));
    assert!(!is_index_selected(6, Some(5), Some(2)));
    assert!(is_index_selected(4, Some(4), Some(4)));
}

#[test]
fn nothing_is_selected_without_both_ends() {
    assert!(!is_index_selected(3, None, None));
    assert!(!is_index_selected(3, Some(3), None));
    assert!(!is_index_selected(3, None, Some(3)));
    let mut v = HexViewer::default();
    assert!(!v.cell_is_selected(0));
    v.selection_start = Some(10);
    assert!(!v.cell_is_selected(10));
    v.selection_end = Some(8);
    assert!(v.cell_is_selected(9));
    assert!(!v.cell_is_selected(11));
}
