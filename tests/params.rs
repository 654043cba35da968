use wsbroker::{convert, ChannelType, Param, ParamError, Primitive, Registry};

#[test]
fn text_and_bool_pass_through() {
    assert_eq!(
        Primitive::try_from(Param::Text("hi".to_string())),
        Ok(Primitive::Text("hi".to_string()))
    );
    assert_eq!(Primitive::try_from(Param::Bool(true)), Ok(Primitive::Bool(true)));
}

#[test]
fn integers_in_i32_range_narrow() {
    assert_eq!(Primitive::try_from(Param::Number(Some(42))), Ok(Primitive::Number(42)));
    assert_eq!(
        Primitive::try_from(Param::Number(Some(i32::MIN as i64))),
        Ok(Primitive::Number(i32::MIN))
    );
    assert_eq!(
        Primitive::try_from(Param::Number(Some(i32::MAX as i64))),
        Ok(Primitive::Number(i32::MAX))
    );
}

#[test]
fn numbers_outside_i32_are_refused() {
    assert_eq!(
        Primitive::try_from(Param::Number(Some(i32::MAX as i64 + 1))),
        Err(ParamError::OutOfRange)
    );
    assert_eq!(
        Primitive::try_from(Param::Number(Some(i32::MIN as i64 - 1))),
        Err(ParamError::OutOfRange)
    );
    assert_eq!(Primitive::try_from(Param::Number(None)), Err(ParamError::OutOfRange));
}

#[test]
fn non_scalars_are_refused() {
    assert_eq!(Primitive::try_from(Param::Null), Err(ParamError::Unsupported));
    assert_eq!(Primitive::try_from(Param::Array), Err(ParamError::Unsupported));
    assert_eq!(Primitive::try_from(Param::Object), Err(ParamError::Unsupported));
}

#[test]
fn convert_keeps_order() {
    let out = convert(vec![
        Param::Number(Some(1)),
        Param::Text("a".to_string()),
        Param::Bool(false),
    ]);
    assert_eq!(
        out,
        Ok(vec![
            Primitive::Number(1),
            Primitive::Text("a".to_string()),
            Primitive::Bool(false)
        ])
    );
}

#[test]
fn convert_of_nothing_is_empty() {
    assert_eq!(convert(vec![]), Ok(vec![]));
}

#[test]
fn convert_reports_first_failure() {
    let out = convert(vec![
        Param::Bool(true),
        Param::Object,
        Param::Number(Some(1 << 40)),
    ]);
    assert_eq!(out, Err(ParamError::Unsupported));
    let out = convert(vec![Param::Number(None), Param::Null]);
    assert_eq!(out, Err(ParamError::OutOfRange));
}

#[test]
fn registry_finds_what_was_added() {
    let mut registry: Registry<u32> = Registry::new();
    assert_eq!(registry.get_fn(&"echo".to_string()), None);
    registry.add_fn("echo", 1);
    registry.add_fn("ping", 2);
    assert_eq!(registry.get_fn(&"echo".to_string()), Some(&1));
    assert_eq!(registry.get_fn(&"ping".to_string()), Some(&2));
    assert_eq!(registry.get_fn(&"pong".to_string()), None);
}

#[test]
fn registry_replaces_under_same_name() {
    let mut registry: Registry<u32> = Registry::new();
    registry.add_fn("echo", 1);
    registry.add_fn("echo", 7);
    assert_eq!(registry.get_fn(&"echo".to_string()), Some(&7));
}

#[test]
fn channel_type_names() {
    assert_eq!(ChannelType::Group.name(), "Group");
    assert_eq!(ChannelType::Client.name(), "Client");
    assert_eq!(ChannelType::Hub.name(), "Hub");
}
