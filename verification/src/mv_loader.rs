//! Making materialized views known to queries.

use vstd::prelude::*;

use crate::mv::registry;
use crate::mv::registry::MaterializedViewRegistry;

verus! {

/// What is still to be done to make a view known.
#[derive(Clone, Copy, Debug, PartialEq, Eq, Structural)]
pub enum LoadStep {
    /// The view is known already.
    Known,
    /// The stored schema of the view has to be looked up.
    LookUpSchema,
    /// The view is registered; its table is to be made known, unless it is by now.
    Provide,
}

/// The view has no schema: it was not planned before it is loaded.
#[derive(Clone, Copy, Debug, PartialEq, Eq, Structural)]
pub struct MissingSchema;

/// What came of looking up the stored schema.
#[derive(Debug)]
pub enum StoredSchema<S> {
    NotLookedUp,
    NotStored,
    Stored(S),
}

/// Registers a view whose table is not known, with the schema that was set for it or else the
/// stored one, which is then set for it.
pub fn load_or_register_mv<B, C, P, W, S>(
    registry: &mut MaterializedViewRegistry<B, C, P, W, S>,
    view_name: &str,
    table_known: bool,
    stored: StoredSchema<S>,
) -> (result: Result<LoadStep, MissingSchema>)
    ensures
        final(registry).keep_last() == old(registry).keep_last(),
        if table_known {
            &&& result == Ok::<LoadStep, MissingSchema>(LoadStep::Known)
            &&& final(registry).views() == old(registry).views()
            &&& final(registry).schemas() == old(registry).schemas()
        } else if registry::find_schema(old(registry).schemas(), view_name@) is Some {
            &&& result == Ok::<LoadStep, MissingSchema>(LoadStep::Provide)
            &&& final(registry).schemas() == old(registry).schemas()
            &&& registered(
                old(registry).views(),
                view_name@,
                old(registry).keep_last(),
                final(registry).views(),
            )
        } else {
            match stored {
                StoredSchema::NotLookedUp => {
                    &&& result == Ok::<LoadStep, MissingSchema>(LoadStep::LookUpSchema)
                    &&& final(registry).views() == old(registry).views()
                    &&& final(registry).schemas() == old(registry).schemas()
                },
                StoredSchema::NotStored => {
                    &&& result == Err::<LoadStep, MissingSchema>(MissingSchema)
                    &&& final(registry).views() == old(registry).views()
                    &&& final(registry).schemas() == old(registry).schemas()
                },
                StoredSchema::Stored(schema) => {
                    &&& result == Ok::<LoadStep, MissingSchema>(LoadStep::Provide)
                    &&& final(registry).schemas() == old(registry).schemas().push(
                        (view_name@, schema),
                    )
                    &&& registry::find_schema(final(registry).schemas(), view_name@) == Some(schema)
                    &&& registered(
                old(registry).views(),
                view_name@,
                old(registry).keep_last(),
                final(registry).views(),
            )
                },
            }
        },
{
    if table_known {
        return Ok(LoadStep::Known);
    }
    if registry.schema(view_name).is_none() {
        match stored {
            StoredSchema::NotLookedUp => {
                return Ok(LoadStep::LookUpSchema);
            },
            StoredSchema::NotStored => {
                return Err(MissingSchema);
            },
            StoredSchema::Stored(schema) => {
                let ghost before = registry.schemas();
                registry.set_schema(String::from_str(view_name), schema);
                assert(registry.schemas().drop_last() =~= before);
            },
        }
    }
    let _ = registry.register(String::from_str(view_name));
    Ok(LoadStep::Provide)
}

/// A view is registered: it is made where there is none of its name.
pub open spec fn registered<B, C, P, W>(
    before: Seq<registry::ViewState<B, C, P, W>>,
    name: Seq<char>,
    keep_last: Option<usize>,
    after: Seq<registry::ViewState<B, C, P, W>>,
) -> bool {
    match registry::find_view(before, name) {
        Some(at) => after == before,
        None => after == before.push(registry::fresh_view(name, keep_last)),
    }
}

} // verus!
