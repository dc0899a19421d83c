//! The listing of schemas.

use crate::cli_error::{CliError, CliErrorV};
use crate::columns::ColumnV;
use crate::schema::{all_tags, columns_for, columns_of, infos, tag_named, TypeTag};
use crate::text;
use vstd::prelude::*;

verus! {

/// The types to list: the one that is named, or all.
pub fn tags_to_show(only: Option<&str>) -> (r: Result<Vec<TypeTag>, CliError>)
    ensures
        match only {
            None => r matches Ok(tags) && tags@ == all_tags(),
            Some(name) => match tag_named(name@) {
                Some(tag) => r matches Ok(tags) && tags@ == seq![tag],
                None => r matches Err(e) && e@ == CliErrorV::Usage(
                    "unknown type '"@ + name@
                        + "'. Valid types: string, list, set, zset, hash, geo, hll"@,
                ),
            },
        },
{
    match only {
        None => Ok(TypeTag::all()),
        Some(name) => match TypeTag::from_cli_name(name) {
            Some(tag) => {
                let tags = vec![tag];
                assert(tags@ == seq![tag]);
                Ok(tags)
            },
            None => Err(
                CliError::Usage(
                    text::join3(
                        "unknown type '",
                        name,
                        "'. Valid types: string, list, set, zset, hash, geo, hll",
                    ),
                ),
            ),
        },
    }
}

/// The line of a column: name, kind, and whether it may hold nulls.
pub open spec fn column_line(c: ColumnV) -> Seq<char> {
    "  "@ + (c.name + text::spaces(text::missing(c.name, 20))) + " "@ + (c.kind.label()
        + text::spaces(text::missing(c.kind.label(), 12))) + " "@ + if c.nullable {
        "nullable"@
    } else {
        "required"@
    }
}

/// The lines of columns.
pub open spec fn column_lines(columns: Seq<ColumnV>) -> Seq<Seq<char>> {
    Seq::new(columns.len(), |i: int| column_line(columns[i]))
}

/// The lines of a type: a heading and its columns.
pub open spec fn type_lines(tag: TypeTag) -> Seq<Seq<char>> {
    seq!["--- "@ + tag.label() + " ---"@] + column_lines(columns_of(tag))
}

/// The lines of types, an empty line between two.
pub open spec fn listing(tags: Seq<TypeTag>) -> Seq<Seq<char>>
    decreases tags.len(),
{
    if tags.len() == 0 {
        Seq::empty()
    } else if tags.len() == 1 {
        type_lines(tags[0])
    } else {
        listing(tags.drop_last()).push(Seq::empty()) + type_lines(tags.last())
    }
}

/// Lines, each by its text.
pub open spec fn line_texts(lines: Seq<String>) -> Seq<Seq<char>> {
    lines.map_values(|s: String| s@)
}

/// Adds the lines of a type.
fn push_type_lines(tag: TypeTag, lines: &mut Vec<String>)
    ensures
        line_texts(final(lines)@) == line_texts(old(lines)@) + type_lines(tag),
{
    let ghost before = line_texts(lines@);
    lines.push(text::join3("--- ", tag.as_str(), " ---"));
    let columns = columns_for(tag);
    let ghost all = column_lines(columns_of(tag));
    let ghost head = seq!["--- "@ + tag.label() + " ---"@];
    let mut i: usize = 0;
    assert(line_texts(lines@) == before + head + all.take(0));
    while i < columns.len()
        invariant
            i <= columns@.len(),
            infos(columns@) == columns_of(tag),
            all == column_lines(columns_of(tag)),
            line_texts(lines@) == before + head + all.take(i as int),
        decreases columns@.len() - i,
    {
        let c = columns[i];
        assert(infos(columns@)[i as int] == c@);
        let start = text::join2("  ", text::pad_right(c.name, 20).as_str()).concat(" ");
        let line = start.concat(text::pad_right(c.kind.as_str(), 12).as_str()).concat(" ").concat(
            if c.nullable {
                "nullable"
            } else {
                "required"
            },
        );
        assert(line@ == all[i as int]);
        let ghost prior = line_texts(lines@);
        lines.push(line);
        assert(line_texts(lines@) == prior.push(all[i as int]));
        assert(all.take(i + 1) == all.take(i as int).push(all[i as int]));
        i += 1;
        assert(line_texts(lines@) == before + head + all.take(i as int));
    }
    assert(all.take(i as int) == all);
    assert(before + head + all == before + (head + all));
}

/// Lists the schemas of types as text, line by line.
pub fn schema_lines(tags: &Vec<TypeTag>) -> (r: Vec<String>)
    ensures
        line_texts(r@) == listing(tags@),
{
    let mut lines: Vec<String> = Vec::new();
    let mut i: usize = 0;
    assert(tags@.take(0) == Seq::<TypeTag>::empty());
    assert(line_texts(lines@) == listing(tags@.take(0)));
    while i < tags.len()
        invariant
            i <= tags@.len(),
            line_texts(lines@) == listing(tags@.take(i as int)),
        decreases tags@.len() - i,
    {
        let ghost done = listing(tags@.take(i as int));
        assert(tags@.take(i + 1).drop_last() == tags@.take(i as int));
        assert(tags@.take(i + 1).last() == tags@[i as int]);
        if i > 0 {
            lines.push(String::new());
            assert(line_texts(lines@) == done.push(Seq::empty()));
        } else {
            assert(done == Seq::<Seq<char>>::empty());
            assert(done + type_lines(tags@[0]) == type_lines(tags@[0]));
        }
        push_type_lines(tags[i], &mut lines);
        i += 1;
    }
    assert(tags@.take(i as int) == tags@);
    lines
}

} // verus!
