//! The kinds of schema, and the law that ties what a load builds from to
//! the bound of its schema.

use crate::asset::{composite_bound, lemma_fields_match};
use crate::bound::{shape_matches, BoundView, NodeView, PropertiesView};
use crate::builtin::{folder_bound, lemma_members_fit_folder_bound};
use vstd::prelude::*;

verus! {

/// What a schema can be: a leaf file, a directory of fixed fields, or a
/// folder whose members are all of one schema.
pub enum Schema {
    Leaf { extension: Seq<char> },
    Fields { fields: Seq<NodeView<Schema>> },
    Members { element: Box<Schema> },
}

/// The bound that a schema declares. A leaf declares its extension, a
/// directory of fields the bound of each field under its name, and a folder
/// the bound of its members as the one rule for its children.
pub open spec fn schema_bound(schema: Schema) -> BoundView
    decreases schema,
{
    match schema {
        Schema::Leaf { extension } => BoundView::File { extension },
        Schema::Fields { fields } => composite_bound(
            Seq::new(
                fields.len(),
                |i: int|
                    if 0 <= i < fields.len() {
                        NodeView { name: fields[i].name, inner: schema_bound(fields[i].inner) }
                    } else {
                        arbitrary()
                    },
            ),
        ),
        Schema::Members { element } => folder_bound(schema_bound(*element)),
    }
}

/// Whether `properties` is the shape of what a load of `schema` is built
/// from. A leaf is built from a file of its extension. A directory of
/// fields is built from one child for each field, under the name of the
/// field. A folder is built from the children that fit the bound of its
/// members, each of which was loaded as a member.
pub open spec fn built_from(schema: Schema, properties: PropertiesView) -> bool
    decreases schema,
{
    match schema {
        Schema::Leaf { extension } => properties == (PropertiesView::File { ext: extension }),
        Schema::Fields { fields } => {
            &&& properties is Directory
            &&& properties->children.len() == fields.len()
            &&& forall|i: int|
                #![trigger fields[i]]
                0 <= i < fields.len() ==> properties->children[i].name == fields[i].name
                    && built_from(fields[i].inner, properties->children[i].inner)
        },
        Schema::Members { element } => {
            &&& properties is Directory
            &&& forall|i: int|
                #![trigger properties->children[i]]
                0 <= i < properties->children.len() ==> shape_matches(
                    properties->children[i].inner,
                    schema_bound(*element),
                ) && built_from(*element, properties->children[i].inner)
        },
    }
}

/// What a load of a schema is built from fits the bound of the schema.
pub proof fn lemma_loaded_shape_fits_bound(schema: Schema, properties: PropertiesView)
    requires
        built_from(schema, properties),
    ensures
        shape_matches(properties, schema_bound(schema)),
    decreases schema,
{
    match schema {
        Schema::Leaf { extension } => {},
        Schema::Fields { fields } => {
            let children = properties->children;
            let bounds = schema_bound(schema)->defined;
            assert forall|i: int|
                #![trigger children[i]]
                0 <= i < children.len() implies children[i].name == bounds[i].name
                && shape_matches(children[i].inner, bounds[i].inner) by {
                lemma_loaded_shape_fits_bound(fields[i].inner, children[i].inner);
            }
            lemma_fields_match(children, bounds);
        },
        Schema::Members { element } => {
            lemma_members_fit_folder_bound(properties->children, schema_bound(*element));
        },
    }
}

} // verus!
