use limousine_core::{add_prefix_to_path, InputError, InputField, MacroInputState, PathError};

fn s(x: &str) -> String {
    x.to_string()
}

#[test]
fn prefix_goes_on_last_component() {
    let path = vec![s("data"), s("index")];
    let out = add_prefix_to_path(&path, &s("layer3")).unwrap();
    assert_eq!(out, vec![s("data"), s("layer3_index")]);
    let single = add_prefix_to_path(&vec![s("x")], &s("p")).unwrap();
    assert_eq!(single, vec![s("p_x")]);
}

#[test]
fn empty_path_is_refused() {
    let r = add_prefix_to_path(&vec![], &s("p"));
    assert_eq!(r, Err(PathError::Empty));
    assert_eq!(PathError::Empty.message(), "Path is empty");
}

#[test]
fn macro_input_with_name_and_layout() {
    let mut st = MacroInputState::new();
    assert_eq!(st.begin_field(&s("name")), Ok(InputField::Name));
    assert_eq!(st.end_field(), Ok(false));
    assert_eq!(st.begin_field(&s("layout")), Ok(InputField::Layout));
    assert_eq!(st.end_field(), Ok(false));
    assert_eq!(st.finish(), Ok(()));
}

#[test]
fn macro_input_errors() {
    let mut st = MacroInputState::new();
    assert_eq!(st.begin_field(&s("name")), Ok(InputField::Name));
    assert_eq!(st.begin_field(&s("name")), Err(InputError::AlreadyDefined(InputField::Name)));
    assert_eq!(st.begin_field(&s("size")), Err(InputError::UnknownField));
    assert_eq!(st.finish(), Err(InputError::NoLayout));

    let mut with_path = MacroInputState::new();
    assert_eq!(with_path.begin_field(&s("path")), Ok(InputField::Path));
    assert_eq!(with_path.end_field(), Ok(true));
    assert_eq!(with_path.finish(), Err(InputError::NoName));
    assert_eq!(
        with_path.begin_field(&s("layout")),
        Err(InputError::AlreadyDefined(InputField::Layout))
    );

    let mut both = MacroInputState::new();
    assert_eq!(both.begin_field(&s("layout")), Ok(InputField::Layout));
    assert_eq!(both.end_field(), Ok(false));
    assert_eq!(both.begin_field(&s("path")), Ok(InputField::Path));
    assert_eq!(both.end_field(), Err(InputError::LayoutAndPath));
    assert_eq!(InputError::LayoutAndPath.message(), "Cannot have both `layout` and `path` fields!");
}
