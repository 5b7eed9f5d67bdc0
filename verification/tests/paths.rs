use vpin::vpx::gltf::{bin_slice, BinSliceError};
use vpin::vpx::{ini_path_for, vbs_path_for};

#[test]
fn sidecar_paths_swap_the_extension() {
    assert_eq!(vbs_path_for("table"), "table.vbs");
    assert_eq!(ini_path_for("table"), "table.ini");
    assert_eq!(vbs_path_for("tables/My Table.vpx"), "tables/My Table.vbs");
    assert_eq!(ini_path_for("tables/My Table.vpx"), "tables/My Table.ini");
}

#[test]
fn sidecar_paths_keep_the_directories() {
    assert_eq!(vbs_path_for("/tables/Foo.vpx"), "/tables/Foo.vbs");
    assert_eq!(vbs_path_for("/t/My.Table.vpx"), "/t/My.Table.vbs");
    assert_eq!(vbs_path_for("/t/Foo"), "/t/Foo.vbs");
    assert_eq!(ini_path_for("/tables/Foo.vpx"), "/tables/Foo.ini");
    assert_eq!(ini_path_for("/t/My.Table.vpx"), "/t/My.Table.ini");
    assert_eq!(ini_path_for("/t/Foo"), "/t/Foo.ini");
    assert_eq!(vbs_path_for("tables.d/.hidden"), "tables.d/.hidden.vbs");
}

#[test]
fn sidecar_paths_replace_only_the_last_extension() {
    assert_eq!(vbs_path_for("table.vpx"), "table.vbs");
    assert_eq!(ini_path_for("table.vpx"), "table.ini");
    assert_eq!(vbs_path_for("my.table.vpx"), "my.table.vbs");
    assert_eq!(vbs_path_for("table."), "table.vbs");
    assert_eq!(vbs_path_for(".hidden"), ".hidden.vbs");
}

#[test]
fn bin_slice_returns_the_range_or_an_error() {
    let data = [1u8, 2, 3, 4, 5];
    assert_eq!(bin_slice(&data, 1, 3, "indices").unwrap(), &[2, 3, 4]);
    assert_eq!(bin_slice(&data, 5, 0, "empty").unwrap(), &[] as &[u8]);
    assert_eq!(
        bin_slice(&data, 3, 3, "positions"),
        Err(BinSliceError {
            what: "positions".to_string(),
            offset: 3,
            len: 3,
            buffer_len: 5
        })
    );
    assert!(bin_slice(&data, usize::MAX, 2, "overflow").is_err());
}

#[test]
fn sidecar_paths_of_directories_and_dot_components() {
    assert_eq!(vbs_path_for("/t/"), "/t.vbs");
    assert_eq!(ini_path_for("/t/"), "/t.ini");
    assert_eq!(vbs_path_for("/t//"), "/t.vbs");
    assert_eq!(vbs_path_for("a/."), "a.vbs");
    assert_eq!(vbs_path_for("a/b.c/./"), "a/b.vbs");
    assert_eq!(vbs_path_for("a/.."), "a/..");
    assert_eq!(vbs_path_for(".."), "..");
    assert_eq!(vbs_path_for("."), ".");
    assert_eq!(vbs_path_for("/"), "/");
    assert_eq!(vbs_path_for(""), "");
}
