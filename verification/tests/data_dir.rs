use taletool::common::{validate_data_dir, DataPathError};

#[test]
fn data_dir_must_exist_and_be_a_directory() {
    assert_eq!(validate_data_dir("game/data".to_string(), true, true), Ok("game/data".to_string()));
    assert_eq!(
        validate_data_dir("game/missing".to_string(), false, false),
        Err(DataPathError::MissingDataDir("game/missing".to_string()))
    );
    assert_eq!(
        validate_data_dir("game/NScliData.NOS".to_string(), true, false),
        Err(DataPathError::NotDirectory("game/NScliData.NOS".to_string()))
    );
}
