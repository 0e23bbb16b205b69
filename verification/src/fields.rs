//! Names and types of the fields of a GIS layer.

use vstd::prelude::*;
use vstd::string::{StrSliceExecFns, StringExecFns};
use crate::utils::same_text;

verus! {

/// The key with `_` for each blank.
pub open spec fn sanitized(key: Seq<char>) -> Seq<char> {
    key.map_values(|c: char| if c == ' ' { '_' } else { c })
}

/// Makes a field's name fit for a key: each blank becomes `_`.
pub fn sanitize_key(k: &str) -> (r: String)
    ensures
        r@ == sanitized(k@),
{
    let n: usize = k.unicode_len();
    let mut out = String::new();
    let mut i: usize = 0;
    proof {
        reveal_strlit("_");
        assert(out@ =~= sanitized(k@.take(0)));
    }
    while i < n
        invariant
            i <= n,
            n == k@.len(),
            "_"@ == seq!['_'],
            out@ == sanitized(k@.take(i as int)),
        decreases n - i,
    {
        let ghost before = out@;
        if k.get_char(i) == ' ' {
            out.append("_");
        } else {
            out.append(k.substring_char(i, i + 1));
        }
        proof {
            assert(k@.take(i + 1) =~= k@.take(i as int).push(k@[i as int]));
            assert(k@.subrange(i as int, i + 1) =~= seq![k@[i as int]]);
            assert(out@ =~= sanitized(k@.take(i + 1)));
        }
        i += 1;
    }
    proof {
        assert(k@.take(n as int) =~= k@);
    }
    out
}

/// The types that a node's attribute can be written as.
#[derive(Clone, Copy, Debug, PartialEq, Eq, Structural)]
pub enum FieldKind {
    /// Text that reads back as the attribute it was.
    Attribute,
    String,
    Integer,
    Float,
    Date,
    DateTime,
}

impl FieldKind {
    /// The kind that a type's name stands for.
    pub open spec fn named(name: Seq<char>) -> Option<FieldKind> {
        if name == "Attribute"@ {
            Some(FieldKind::Attribute)
        } else if name == "String"@ {
            Some(FieldKind::String)
        } else if name == "Integer"@ {
            Some(FieldKind::Integer)
        } else if name == "Float"@ {
            Some(FieldKind::Float)
        } else if name == "Date"@ {
            Some(FieldKind::Date)
        } else if name == "DateTime"@ {
            Some(FieldKind::DateTime)
        } else {
            None
        }
    }

    /// What is said of a name that stands for no kind.
    pub open spec fn refusal(name: Seq<char>) -> Seq<char> {
        "Type "@ + name
            + " Not supported. Use String, Integer, Float, Date, DateTime or Attribute"@
    }
}

/// Reads the name of a type: one of `Attribute`, `String`, `Integer`,
/// `Float`, `Date`, `DateTime`. Any other name is refused, with the words
/// of [`FieldKind::refusal`].
pub fn type_name_to_field(name: &str) -> (r: Result<FieldKind, String>)
    ensures
        r is Ok <==> FieldKind::named(name@) is Some,
        r is Ok ==> Some(r->Ok_0) == FieldKind::named(name@),
        r is Err ==> r->Err_0@ == FieldKind::refusal(name@),
{
    if same_text(name, "Attribute") {
        Ok(FieldKind::Attribute)
    } else if same_text(name, "String") {
        Ok(FieldKind::String)
    } else if same_text(name, "Integer") {
        Ok(FieldKind::Integer)
    } else if same_text(name, "Float") {
        Ok(FieldKind::Float)
    } else if same_text(name, "Date") {
        Ok(FieldKind::Date)
    } else if same_text(name, "DateTime") {
        Ok(FieldKind::DateTime)
    } else {
        let mut text = String::from_str("Type ");
        text.append(name);
        text.append(" Not supported. Use String, Integer, Float, Date, DateTime or Attribute");
        Err(text)
    }
}

/// Why the rows of a layer gave no edges.
#[derive(Clone, Copy, Debug, PartialEq, Eq, Structural)]
pub enum FieldError {
    /// A row has no value where the start or the end of its edge is named.
    NullValue,
}

impl FieldError {
    /// The words for the error.
    pub fn message(&self) -> (r: String)
        ensures
            r@ == "Null value on source field"@,
    {
        "Null value on source field".to_owned()
    }
}

/// What a row reads as: the names of the start and of the end of an edge,
/// each missing or not.
pub open spec fn row_views(rows: Seq<(Option<String>, Option<String>)>) -> Seq<
    (Option<Seq<char>>, Option<Seq<char>>),
> {
    rows.map_values(
        |r: (Option<String>, Option<String>)|
            (
                match r.0 {
                    Some(a) => Some(a@),
                    None => None,
                },
                match r.1 {
                    Some(b) => Some(b@),
                    None => None,
                },
            ),
    )
}

/// What a list of named edges reads as.
pub open spec fn edge_views(edges: Seq<(String, String)>) -> Seq<(Seq<char>, Seq<char>)> {
    edges.map_values(|e: (String, String)| (e.0@, e.1@))
}

/// Whether a row names both ends of its edge.
pub open spec fn is_whole(row: (Option<Seq<char>>, Option<Seq<char>>)) -> bool {
    row.0 is Some && row.1 is Some
}

/// The edges of the rows that name both ends, in order.
pub open spec fn whole_rows(rows: Seq<(Option<Seq<char>>, Option<Seq<char>>)>) -> Seq<
    (Seq<char>, Seq<char>),
>
    decreases rows.len(),
{
    if rows.len() == 0 {
        Seq::empty()
    } else {
        let rest = whole_rows(rows.drop_last());
        if is_whole(rows.last()) {
            rest.push((rows.last().0->Some_0, rows.last().1->Some_0))
        } else {
            rest
        }
    }
}

/// Whether a row misses a name.
pub open spec fn has_gap(rows: Seq<(Option<Seq<char>>, Option<Seq<char>>)>) -> bool {
    exists|i: int| 0 <= i < rows.len() && !is_whole(#[trigger] rows[i])
}

/// Reads the edges of a network from the rows of a layer. A row that misses
/// a name is passed over where `ignore_null` says so; otherwise it refuses
/// the layer.
pub fn named_edges(rows: &Vec<(Option<String>, Option<String>)>, ignore_null: bool) -> (r: Result<
    Vec<(String, String)>,
    FieldError,
>)
    ensures
        r is Err <==> !ignore_null && has_gap(row_views(rows@)),
        r is Ok ==> edge_views(r->Ok_0@) == whole_rows(row_views(rows@)),
{
    let ghost all = row_views(rows@);
    let mut edges: Vec<(String, String)> = Vec::new();
    let mut i: usize = 0;
    proof {
        assert(all.take(0) =~= Seq::empty());
        assert(edge_views(edges@) =~= whole_rows(all.take(0)));
    }
    while i < rows.len()
        invariant
            i <= rows.len(),
            all == row_views(rows@),
            !ignore_null ==> forall|j: int| 0 <= j < i ==> is_whole(#[trigger] all[j]),
            edge_views(edges@) == whole_rows(all.take(i as int)),
        decreases rows.len() - i,
    {
        let row = &rows[i];
        proof {
            assert(all.take(i + 1).drop_last() =~= all.take(i as int));
            assert(all.take(i + 1).last() == all[i as int]);
        }
        match (&row.0, &row.1) {
            (Some(a), Some(b)) => {
                let ghost before = edges@;
                edges.push((a.clone(), b.clone()));
                proof {
                    assert(edge_views(edges@) =~= edge_views(before).push((a@, b@)));
                }
            },
            _ => {
                assert(!is_whole(all[i as int]));
                if !ignore_null {
                    return Err(FieldError::NullValue);
                }
            },
        }
        i += 1;
    }
    assert(all.take(rows.len() as int) =~= all);
    Ok(edges)
}

} // verus!
