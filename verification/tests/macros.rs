use runa::macros::dispatch::{
    ArgTy, DispatchImpl, FnArg, GenericArg, ImplItem, ItemImpl, ParseError, PathArgs, PathSegment,
};
use runa::macros::object::{
    interface_message_dispatch_for_enum, wayland_object, Attributes, DeriveInput, EnumError, Fields, MessageTy,
    ObjectError, Variant, VariantArm,
};

fn segment(ident: &str, args: Vec<&str>) -> PathSegment {
    let arguments = if args.is_empty() {
        PathArgs::Absent
    } else {
        PathArgs::AngleBracketed(args.into_iter().map(|a| GenericArg::PathType(a.to_string())).collect())
    };
    PathSegment { ident: ident.to_string(), arguments }
}

fn typed(ident: &str, ty: ArgTy) -> FnArg {
    FnArg::Typed { ident: Some(ident.to_string()), ty }
}

fn path(last: &str) -> ArgTy {
    ArgTy::Path(Some(last.to_string()))
}

fn leading() -> Vec<FnArg> {
    vec![FnArg::Receiver, typed("ctx", ArgTy::Reference), typed("object_id", path("u32"))]
}

fn method(ident: &str, more: Vec<FnArg>) -> ImplItem {
    let mut inputs = leading();
    inputs.extend(more);
    ImplItem::Method { ident: ident.to_string(), inputs }
}

fn ty(ident: &str) -> ImplItem {
    ImplItem::Type { ident: ident.to_string(), ty: "E".to_string() }
}

fn parse(items: Vec<ImplItem>) -> Result<DispatchImpl, ParseError> {
    let trait_ = Some(vec![segment("wl_display", vec![]), segment("RequestDispatch", vec!["Ctx"])]);
    DispatchImpl::parse(&ItemImpl { trait_, items })
}

#[test]
fn dispatch_impls_are_read() {
    let parsed = parse(vec![
        ty("Error"),
        ty("SyncFut"),
        method("sync", vec![typed("_callback", path("NewId"))]),
        method("set_title", vec![typed("__title", path("Str"))]),
    ])
    .unwrap();
    assert_eq!(parsed.error, "E");
    assert!(parsed.has_lifetime);
    assert_eq!(parsed.items.len(), 2);
    assert_eq!(parsed.items[0].args, vec!["_callback"]);
    assert!(!parse(vec![ty("Error"), method("sync", vec![typed("id", path("NewId"))])]).unwrap().has_lifetime);
    assert!(parse(vec![ty("Error"), method("keys", vec![typed("k", ArgTy::Reference)])]).unwrap().has_lifetime);
}

#[test]
fn each_way_not_to_be_a_dispatch_impl() {
    let with_trait = |trait_| DispatchImpl::parse(&ItemImpl { trait_, items: vec![ty("Error")] }).unwrap_err();
    assert_eq!(with_trait(None), ParseError::NoTrait);
    assert_eq!(with_trait(Some(vec![])), ParseError::EmptyPath);
    assert_eq!(with_trait(Some(vec![segment("T", vec![])])), ParseError::ParameterCount);
    assert_eq!(with_trait(Some(vec![segment("T", vec!["A", "B"])])), ParseError::ParameterCount);
    let failed = |items| parse(items).unwrap_err();
    assert_eq!(failed(vec![method("m", vec![FnArg::Receiver])]), ParseError::MultipleReceivers);
    let pattern = FnArg::Typed { ident: None, ty: path("u32") };
    assert_eq!(failed(vec![method("m", vec![pattern])]), ParseError::NoIdentifier);
    assert_eq!(failed(vec![method("m", vec![typed("a", ArgTy::Other)])]), ParseError::ArgumentType);
    assert_eq!(failed(vec![ty("Error"), ty("Error")]), ParseError::SecondError);
    assert_eq!(failed(vec![ty("Future")]), ParseError::TypeItem);
    assert_eq!(failed(vec![ImplItem::Other]), ParseError::UnrecognizedItem);
    assert_eq!(failed(vec![ty("SyncFut")]), ParseError::NoError);
    assert_eq!(ParseError::NoError.message(), "No Error type found");
}

fn attributes() -> Attributes {
    Attributes { message: None, crate_: None, interface: None, on_disconnect: None }
}

#[test]
fn objects_dispatch_to_methods() {
    let item = parse(vec![ty("Error"), method("get_registry", vec![typed("__registry", path("NewId"))])]).unwrap();
    let trait_ = vec![segment("wl_display", vec![]), segment("RequestDispatch", vec!["Ctx"])];
    let code = wayland_object(attributes(), &trait_, &item).unwrap();
    assert!(matches!(&code.message, MessageTy::InModule(name) if name == "Request"));
    assert_eq!(code.crate_path, "::wl_server");
    assert_eq!(code.ctx, "Ctx");
    assert_eq!(code.arms[0].variant, "GetRegistry");
    assert_eq!(code.arms[0].method, "get_registry");
    assert_eq!(code.arms[0].fields, vec!["registry"]);
    assert_eq!(code.interface, None);
    // The suffix is taken off as often as it is there.
    let twice = vec![segment("ADispatchDispatch", vec!["Ctx"])];
    let code = wayland_object(attributes(), &twice, &item).unwrap();
    assert!(matches!(&code.message, MessageTy::InModule(name) if name == "A"));
    let given = Attributes {
        message: Some("m::Message".to_string()),
        crate_: Some("crate".to_string()),
        interface: Some("wl_x".to_string()),
        on_disconnect: Some("bye".to_string()),
    };
    let code = wayland_object(given, &vec![segment("T", vec!["C"])], &item).unwrap();
    assert!(matches!(&code.message, MessageTy::Given(path) if path == "m::Message"));
    assert_eq!(code.crate_path, "crate");
    assert_eq!(code.interface.as_deref(), Some("wl_x"));
    assert_eq!(code.on_disconnect.as_deref(), Some("bye"));
}

#[test]
fn each_way_to_have_no_object() {
    let item = parse(vec![ty("Error")]).unwrap();
    let failed = |trait_| wayland_object(attributes(), &trait_, &item).unwrap_err();
    assert_eq!(failed(vec![]), ObjectError::EmptyPath);
    assert_eq!(failed(vec![segment("T", vec!["Ctx"])]), ObjectError::NoMessage);
    assert_eq!(failed(vec![segment("RequestDispatch", vec![])]), ObjectError::ParameterCount);
    let other = PathArgs::AngleBracketed(vec![GenericArg::Other("'a".to_string())]);
    let trait_ = vec![PathSegment { ident: "RequestDispatch".to_string(), arguments: other }];
    assert_eq!(failed(trait_), ObjectError::ParameterCount);
}

fn variant(ident: &str, types: Vec<&str>) -> Variant {
    Variant {
        ident: ident.to_string(),
        has_discriminant: false,
        fields: Fields::Unnamed(types.into_iter().map(|t| t.to_string()).collect()),
    }
}

fn input(variants: Option<Vec<Variant>>) -> DeriveInput {
    DeriveInput { variants, type_params: vec!["T".to_string()], crate_: None, context: None }
}

#[test]
fn enums_dispatch_to_variants() {
    let mut second = variant("B", vec!["TyB", "More"]);
    let code =
        interface_message_dispatch_for_enum(&input(Some(vec![variant("A", vec!["TyA"]), second]))).unwrap();
    assert_eq!(code.first_ty, "TyA");
    assert_eq!(code.context_param, "Ctx");
    assert!(code.add_ctx && code.ctx_lifetime_bound);
    assert_eq!(code.variants[0].arm, VariantArm::Dispatch);
    assert!(!code.variants[0].same_error);
    assert_eq!(code.variants[1].arm, VariantArm::NotSingle);
    assert_eq!(code.variants[1].ty, "TyB");
    assert!(code.variants[1].same_error);
    second = variant("C", vec!["TyC"]);
    second.has_discriminant = true;
    let mut given = input(Some(vec![second]));
    given.context = Some("MyCtx".to_string());
    let code = interface_message_dispatch_for_enum(&given).unwrap();
    assert_eq!(code.variants[0].arm, VariantArm::Discriminant);
    assert_eq!(code.context_param, "MyCtx");
    assert!(!code.add_ctx && !code.ctx_lifetime_bound);
    let mut generic = input(Some(vec![variant("A", vec!["TyA"])]));
    generic.type_params.push("Ctx".to_string());
    assert!(!interface_message_dispatch_for_enum(&generic).unwrap().add_ctx);
}

#[test]
fn each_way_to_be_no_enum() {
    let failed = |variants| interface_message_dispatch_for_enum(&input(variants)).unwrap_err();
    assert_eq!(failed(None), EnumError::NoEnum);
    assert_eq!(failed(Some(vec![])), EnumError::NoVariant);
    assert_eq!(failed(Some(vec![variant("A", vec![])])), EnumError::FirstEmpty);
    let unit = Variant { ident: "A".to_string(), has_discriminant: false, fields: Fields::Unit };
    assert_eq!(failed(Some(vec![unit])), EnumError::FirstNotUnnamed);
}
