use json_paths::path_formatting::build_array_path;
use json_paths::path_formatting::build_object_path;
use json_paths::path_formatting::format_path_component;

#[test]
fn test_format_path_component_simple_key() {
    assert_eq!(format_path_component("x"), ".x");
    assert_eq!(format_path_component("name"), ".name");
    assert_eq!(format_path_component("_private"), "._private");
    assert_eq!(format_path_component("key123"), ".key123");
}

#[test]
fn test_format_path_component_key_with_spaces() {
    assert_eq!(format_path_component("my field"), "[\"my field\"]");
    assert_eq!(format_path_component("my key"), "[\"my key\"]");
    assert_eq!(format_path_component("  "), "[\"  \"]");
}

#[test]
fn test_format_path_component_key_with_special_chars() {
    assert_eq!(format_path_component("key-name"), "[\"key-name\"]");
    assert_eq!(format_path_component("key.name"), "[\"key.name\"]");
    assert_eq!(format_path_component("key@value"), "[\"key@value\"]");
    assert_eq!(format_path_component("123key"), "[\"123key\"]");
}

#[test]
fn test_format_path_component_key_with_quotes() {
    assert_eq!(format_path_component("key\"value"), "[\"key\\\"value\"]");
    assert_eq!(format_path_component("\"quoted\""), "[\"\\\"quoted\\\"\"]");
}

#[test]
fn test_format_path_component_key_with_backslash() {
    assert_eq!(format_path_component("key\\value"), "[\"key\\\\value\"]");
}

#[test]
fn test_format_path_component_empty_key() {
    assert_eq!(format_path_component(""), "[\"\"]");
}

#[test]
fn test_build_object_path_simple() {
    assert_eq!(build_object_path("obj", "x"), "obj.x");
    assert_eq!(build_object_path("root", "name"), "root.name");
    assert_eq!(build_object_path("data", "value"), "data.value");
}

#[test]
fn test_build_object_path_with_spaces() {
    assert_eq!(build_object_path("obj", "my field"), "obj[\"my field\"]");
    assert_eq!(build_object_path("root", "my key"), "root[\"my key\"]");
}

#[test]
fn test_build_object_path_nested() {
    assert_eq!(build_object_path("obj.x", "y"), "obj.x.y");
    assert_eq!(
        build_object_path("obj[\"my field\"]", "nested"),
        "obj[\"my field\"].nested"
    );
    assert_eq!(build_object_path("obj.x", "my field"), "obj.x[\"my field\"]");
}

#[test]
fn test_build_array_path() {
    assert_eq!(build_array_path("arr", 0), "arr[0]");
    assert_eq!(build_array_path("arr", 42), "arr[42]");
    assert_eq!(build_array_path("obj.x", 0), "obj.x[0]");
}

#[test]
fn test_build_array_path_nested() {
    assert_eq!(build_array_path("arr[0]", 1), "arr[0][1]");
    assert_eq!(
        build_array_path("obj[\"my field\"][0]", 1),
        "obj[\"my field\"][0][1]"
    );
}

#[test]
fn test_full_path_examples() {
    let path1 = build_object_path("obj", "x");
    assert_eq!(path1, "obj.x");

    let path2 = build_object_path("obj", "my field");
    assert_eq!(path2, "obj[\"my field\"]");

    let path3 = build_object_path("obj.x", "y");
    assert_eq!(path3, "obj.x.y");

    let path4 = build_object_path("obj[\"my field\"]", "nested");
    assert_eq!(path4, "obj[\"my field\"].nested");

    let path5 = build_array_path("arr", 0);
    assert_eq!(path5, "arr[0]");

    let path6 = build_array_path("obj.x", 0);
    assert_eq!(path6, "obj.x[0]");

    let path7 = build_array_path("obj[\"my field\"]", 0);
    let path8 = build_object_path(&path7, "nested");
    assert_eq!(path8, "obj[\"my field\"][0].nested");

    let path9 = build_object_path("obj.x", "my field");
    assert_eq!(path9, "obj.x[\"my field\"]");
}

#[test]
fn test_path_generation_integration() {
    let root = "root";

    assert_eq!(build_object_path(root, "simple"), "root.simple");
    assert_eq!(build_object_path(root, "my field"), "root[\"my field\"]");
    assert_eq!(build_object_path(root, "key-name"), "root[\"key-name\"]");
    assert_eq!(build_object_path(root, "123invalid"), "root[\"123invalid\"]");
    assert_eq!(build_object_path(root, "normal_key"), "root.normal_key");

    let nested_base = build_object_path(root, "normal_key");
    assert_eq!(
        build_object_path(&nested_base, "nested"),
        "root.normal_key.nested"
    );
    assert_eq!(
        build_object_path(&nested_base, "nested field"),
        "root.normal_key[\"nested field\"]"
    );

    let arr_base = build_object_path(root, "arr");
    assert_eq!(build_array_path(&arr_base, 0), "root.arr[0]");

    let item_base = build_array_path(&arr_base, 0);
    assert_eq!(build_object_path(&item_base, "item"), "root.arr[0].item");
}
