//! What the impls that are generated have to do with those that they are generated from.
use vstd::prelude::*;
use vstd::string::*;
use crate::macros::dispatch::{
    dispatch_impl, method_args, with_items, ArgTy, DispatchItem, DispatchItemView, DispatchView, FnArg, GenericArg,
    ImplItem, ItemImpl,
    PathArgs, PathSegment,
};
use crate::macros::object::{
    arm_of, context_ty, enum_error, message_ty, variant_code, DeriveInput, Fields, MatchArm, MessageTy, MessageTyView,
    Variant, VariantCode,
};
use crate::text::{has_suffix, prefixes_are_taken_off, suffixes_are_taken_off};

verus! {

/// How many of the first `n` items are methods.
pub open spec fn methods_before(items: Seq<ImplItem>, n: int) -> nat
    decreases n,
{
    if n <= 0 {
        0
    } else {
        methods_before(items, n - 1) + if items[n - 1] is Method {
            1nat
        } else {
            0
        }
    }
}

/// The argument borrows from the message: it is a reference, or a `Str`.
pub open spec fn borrowed_arg(arg: FnArg) -> bool {
    arg matches FnArg::Typed { ty, .. } && (ty is Reference || (ty matches ArgTy::Path(Some(last)) && last@ == "Str"@))
}

/// The argument has a name, which is the given one, and a type that a message can have.
pub open spec fn is_named(arg: FnArg, name: Seq<char>) -> bool {
    match arg {
        FnArg::Typed { ident: Some(ident), ty } => match ty {
            ArgTy::Path(_) | ArgTy::Reference => ident@ == name,
            ArgTy::Other => false,
        },
        _ => false,
    }
}

/// The arguments of a method are those behind `self`, the context and the object id, by
/// their names and in order.
pub open spec fn has_args_of(args: Seq<Seq<char>>, inputs: Seq<FnArg>) -> bool {
    &&& args.len() == if inputs.len() > 3 {
        inputs.len() - 3
    } else {
        0
    }
    &&& forall|k: int| 0 <= k < args.len() ==> is_named(inputs[k + 3], #[trigger] args[k])
}

/// Names of arguments are read in order.
proof fn lemma_method_args(inputs: Seq<FnArg>, n: int)
    requires
        0 <= n <= inputs.len(),
    ensures
        method_args(inputs, n) matches Ok((names, borrowed)) ==> {
            &&& has_args_of(names, inputs.take(n))
            &&& borrowed <==> exists|k: int| 3 <= k < n && borrowed_arg(#[trigger] inputs[k])
        },
    decreases n,
{
    if n > 3 {
        lemma_method_args(inputs, n - 1);
        if let Ok((names, borrowed)) = method_args(inputs, n) {
            let (before, had) = method_args(inputs, n - 1)->Ok_0;
            let part = inputs.take(n);
            assert forall|k: int| 0 <= k < names.len() implies is_named(part[k + 3], #[trigger] names[k]) by {
                if k < before.len() {
                    assert(names[k] == before[k]);
                    assert(inputs.take(n - 1)[k + 3] == part[k + 3]);
                } else {
                    assert(part[k + 3] == inputs[n - 1]);
                }
            }
            if borrowed {
                if had {
                    let k = choose|k: int| 3 <= k < n - 1 && borrowed_arg(#[trigger] inputs[k]);
                    assert(borrowed_arg(inputs[k]));
                } else {
                    assert(borrowed_arg(inputs[n - 1]));
                }
            }
            if exists|k: int| 3 <= k < n && borrowed_arg(#[trigger] inputs[k]) {
                let k = choose|k: int| 3 <= k < n && borrowed_arg(#[trigger] inputs[k]);
                if k < n - 1 {
                    assert(borrowed_arg(inputs[k]));
                }
            }
            assert(has_args_of(names, part));
            assert(borrowed <==> exists|k: int| 3 <= k < n && borrowed_arg(#[trigger] inputs[k]));
        }
    } else {
        assert(has_args_of(Seq::empty(), inputs.take(n)));
    }
}

/// An argument behind the third of some method borrows from the message.
pub open spec fn some_arg_borrowed(items: Seq<ImplItem>, n: int) -> bool {
    exists|i: int, k: int| #[trigger] borrowed_in(items, n, i, k)
}

/// The argument with number `k` of the method with number `i` borrows from the message.
pub open spec fn borrowed_in(items: Seq<ImplItem>, n: int, i: int, k: int) -> bool {
    0 <= i < n && (items[i] matches ImplItem::Method { inputs, .. } && 3 <= k < inputs@.len() && borrowed_arg(inputs@[k]))
}

proof fn lemma_items(items: Seq<ImplItem>, n: int)
    requires
        0 <= n <= items.len(),
    ensures
        with_items(items, n) matches Ok(v) ==> {
            &&& v.items.len() == methods_before(items, n)
            &&& forall|i: int| 0 <= i < n ==> reads_item(v, items, #[trigger] items[i], i)
            &&& v.error is Some ==> exists|i: int| 0 <= i < n && (#[trigger] items[i]) is Type
            &&& v.has_lifetime <==> some_arg_borrowed(items, n)
        },
    decreases n,
{
    if n > 0 {
        lemma_items(items, n - 1);
        if let Ok(v) = with_items(items, n) {
            let w = with_items(items, n - 1)->Ok_0;
            let last = items[n - 1];
            if let ImplItem::Method { ident, inputs } = last {
                lemma_method_args(inputs@, inputs@.len() as int);
                assert(inputs@.take(inputs@.len() as int) =~= inputs@);
            }
            assert forall|i: int| 0 <= i < n implies reads_item(v, items, #[trigger] items[i], i) by {
                if i < n - 1 {
                    assert(reads_item(w, items, items[i], i));
                    lemma_count_grows(items, i, n - 1);
                }
            }
            if v.error is Some {
                if w.error is Some {
                    let i = choose|i: int| 0 <= i < n - 1 && (#[trigger] items[i]) is Type;
                    assert(items[i] is Type);
                } else {
                    assert(items[n - 1] is Type);
                }
            }
            if v.has_lifetime {
                if w.has_lifetime {
                    let (i, k) = choose|i: int, k: int| #[trigger] borrowed_in(items, n - 1, i, k);
                    assert(borrowed_in(items, n, i, k));
                } else {
                    let inputs = last->inputs;
                    let k = choose|k: int| 3 <= k < inputs@.len() && borrowed_arg(#[trigger] inputs@[k]);
                    assert(borrowed_in(items, n, n - 1, k));
                }
            }
            if some_arg_borrowed(items, n) {
                let (i, k) = choose|i: int, k: int| #[trigger] borrowed_in(items, n, i, k);
                if i < n - 1 {
                    assert(borrowed_in(items, n - 1, i, k));
                } else {
                    assert(borrowed_arg(last->inputs@[k]));
                }
            }
        }
    }
}

proof fn lemma_count_grows(items: Seq<ImplItem>, i: int, n: int)
    requires
        0 <= i < n,
    ensures
        items[i] is Method ==> methods_before(items, i) < methods_before(items, n),
        methods_before(items, i) <= methods_before(items, n),
    decreases n - i,
{
    if i < n - 1 {
        lemma_count_grows(items, i, n - 1);
    }
}

/// What was read of an impl has what the item with number `i` says: a method with its name
/// and its arguments, behind the methods before it, or the error type.
pub open spec fn reads_item(v: DispatchView, items: Seq<ImplItem>, item: ImplItem, i: int) -> bool {
    match item {
        ImplItem::Method { ident, inputs } => {
            let k = methods_before(items, i) as int;
            &&& k < v.items.len()
            &&& v.items[k].ident == ident@
            &&& has_args_of(v.items[k].args, inputs@)
        },
        ImplItem::Type { ident, ty } => if ident@ == "Error"@ {
            v.error == Some(ty@)
        } else {
            has_suffix(ident@, "Fut"@)
        },
        ImplItem::Other => false,
    }
}

/// A dispatch impl is read as it is written: its methods in order, each with the names of
/// the arguments that come from the message, and its error type. It needs a lifetime
/// exactly if some argument borrows from the message.
pub proof fn dispatch_impls_are_read_as_written(input: ItemImpl, i: int)
    requires
        dispatch_impl(input) is Ok,
        0 <= i < input.items@.len(),
    ensures
        ({
            let v = dispatch_impl(input)->Ok_0;
            let n = input.items@.len() as int;
            &&& v.items.len() == methods_before(input.items@, n)
            &&& reads_item(v, input.items@, input.items@[i], i)
            &&& v.error is Some
            &&& v.has_lifetime <==> some_arg_borrowed(input.items@, n)
        }),
{
    lemma_items(input.items@, input.items@.len() as int);
    assert(reads_item(dispatch_impl(input)->Ok_0, input.items@, input.items@[i], i));
}

/// A message goes to the method with the name of the item, with a field for each argument,
/// in order.
pub proof fn arms_call_methods(item: DispatchItemView, i: int)
    requires
        0 <= i < item.args.len(),
    ensures
        arm_of(item).method == item.ident,
        arm_of(item).fields.len() == item.args.len(),
        item.args[i].len() > 0 && item.args[i][0] != '_' ==> arm_of(item).fields[i] == item.args[i],
        arm_of(item).fields[i].len() > 0 ==> arm_of(item).fields[i][0] != '_',
{
    prefixes_are_taken_off(item.args[i], '_');
}

/// The message type of a trait is what stands before `Dispatch` in its name, unless another
/// one is given.
pub proof fn message_types_come_from_traits(trait_: Seq<PathSegment>, name: Seq<char>)
    requires
        trait_.len() > 0,
        trait_.last().ident@ == name + "Dispatch"@,
        !has_suffix(name, "Dispatch"@),
    ensures
        message_ty(None, trait_) matches Ok(MessageTyView::InModule(ty)) && ty == name,
        forall|given: String| #[trigger]
            message_ty(Some(given), trait_) matches Ok(MessageTyView::Given(path)) && path == given@,
{
    reveal_strlit("Dispatch");
    let full = name + "Dispatch"@;
    assert(full.skip(full.len() - "Dispatch"@.len()) =~= "Dispatch"@);
    suffixes_are_taken_off(name, "Dispatch"@);
}

/// The context is the only parameter of the trait.
pub proof fn contexts_come_from_traits(trait_: Seq<PathSegment>)
    ensures
        context_ty(trait_) matches Ok(ctx) ==> trait_.len() > 0 && (trait_.last().arguments matches PathArgs::AngleBracketed(
            args,
        ) && args@.len() == 1 && (args@[0] matches GenericArg::PathType(path) && path@ == ctx)),
        trait_.len() > 0 && (trait_.last().arguments matches PathArgs::AngleBracketed(args) && args@.len() == 1 && args@[0]
            is PathType) ==> context_ty(trait_) is Ok,
{
}

/// Each variant of an enum becomes an arm, which hands messages on to the object in it
/// exactly if the variant has one field and no discriminant. The error type is that of the
/// first variant.
pub proof fn variants_become_arms(input: DeriveInput, variants: Seq<Variant>, i: int)
    requires
        0 <= i < variants.len(),
        variants[i].fields matches Fields::Unnamed(list) && list@.len() > 0,
    ensures
        ({
            let code = variant_code(variants, i);
            let list = variants[i].fields->Unnamed_0@;
            &&& code.ident == variants[i].ident@
            &&& code.ty == list[0]@
            &&& code.arm is Dispatch <==> list.len() == 1 && !variants[i].has_discriminant
            &&& code.same_error <==> i > 0
        }),
        enum_error(input) is None <==> (input.variants matches Some(all) && all@.len() > 0 && (all@[0].fields
            matches Fields::Unnamed(first) && first@.len() > 0)),
{
}

/// What the arms and variants of an impl say is what stands in them.
pub proof fn arms_say_what_they_have(arm: MatchArm, variant: VariantCode, item: DispatchItem, ty: MessageTy, i: int)
    ensures
        arm@.variant == arm.variant@,
        arm@.method == arm.method@,
        arm@.fields.len() == arm.fields@.len(),
        0 <= i < arm.fields@.len() ==> arm@.fields[i] == arm.fields@[i]@,
        variant@.ident == variant.ident@,
        variant@.ty == variant.ty@,
        variant@.arm == variant.arm,
        variant@.same_error == variant.same_error,
        item@.ident == item.ident@,
        item@.args.len() == item.args@.len(),
        0 <= i < item.args@.len() ==> item@.args[i] == item.args@[i]@,
        ty matches MessageTy::Given(path) ==> ty@ == MessageTyView::Given(path@),
        ty matches MessageTy::InModule(name) ==> ty@ == MessageTyView::InModule(name@),
{
}

} // verus!
