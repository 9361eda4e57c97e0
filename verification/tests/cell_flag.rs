use std::str::FromStr;

use taletool::cell_flag::{
    color_for_value, render_cells, CellFlagArg, CellFlagProblem, LegendEntry,
};

#[test]
fn renders_exact_values_with_stable_distinct_colors_and_legend() {
    let (pixels, legend) = render_cells(&[0x00, 0x01, 0x01, 0xff], None);

    assert_eq!(pixels.len(), 4);
    assert_eq!(pixels[0], [255, 255, 255]);
    assert_ne!(pixels[1], pixels[3]);
    assert_eq!(
        legend,
        vec![
            LegendEntry { value: 0, color: color_for_value(0), count: 1 },
            LegendEntry { value: 1, color: color_for_value(1), count: 2 },
            LegendEntry { value: 0xff, color: color_for_value(0xff), count: 1 },
        ]
    );
}

#[test]
fn palette_is_bijective() {
    let colors = (u8::MIN..=u8::MAX)
        .map(color_for_value)
        .collect::<std::collections::HashSet<_>>();
    assert_eq!(colors.len(), 256);
}

#[test]
fn palette_colors_are_rgb332() {
    assert_eq!(color_for_value(0), [255, 255, 255]);
    assert_eq!(color_for_value(255), [0, 0, 0]);
    assert_eq!(color_for_value(0b01_010_001), [36, 72, 85]);
}

#[test]
fn filters_combined_values_by_named_and_numeric_flags() {
    for filter in ["unknown-04", "0x04", "4", "UNKNOWN-04"] {
        let flag = CellFlagArg::from_str(filter).unwrap();
        let (pixels, legend) = render_cells(&[0x00, 0x04, 0x05], Some(flag));
        assert_eq!(pixels[0], [255, 255, 255]);
        assert_eq!(pixels[1], [0, 0, 0]);
        assert_eq!(pixels[2], [0, 0, 0]);
        assert!(legend.is_empty());
    }
}

#[test]
fn accepts_unnamed_single_bits_and_rejects_invalid_masks() {
    assert_eq!(CellFlagArg::from_str("0x20").unwrap().bits(), 0x20);
    for invalid in ["0", "0x03", "256", "wat"] {
        assert!(CellFlagArg::from_str(invalid).is_err(), "{invalid}");
    }
}

#[test]
fn cell_flag_errors_name_the_problem() {
    assert_eq!(CellFlagArg::parse("0xzz").unwrap_err().problem, CellFlagProblem::InvalidHexMask);
    assert_eq!(CellFlagArg::parse("wat").unwrap_err().problem, CellFlagProblem::InvalidDecimalMask);
    let error = CellFlagArg::parse("0x03").unwrap_err();
    assert_eq!(error.problem, CellFlagProblem::NotSingleBit);
    assert_eq!(error.input, "0x03");
    assert_eq!(CellFlagArg::parse("PVP-Disabled").unwrap().bits(), 0x10);
    assert_eq!(CellFlagArg::parse("walking-disabled").unwrap().bits(), 0x01);
    assert_eq!(CellFlagArg::parse("+128").unwrap().bits(), 0x80);
}
