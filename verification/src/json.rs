//! JSON as both ends exchange it: a tree of values, with the members of an
//! object in the order they were written.

use vstd::prelude::*;
use vstd::string::*;

use crate::binary32::Binary32;
use crate::text::same_text;

verus! {

/// A JSON value.
pub enum Json {
    Null,
    Bool(bool),
    /// A number written without fraction and exponent, within 64 bits.
    Integer(i128),
    /// Any other number, at the precision of a measurement.
    Decimal(Binary32),
    /// A string, and the number it spells out, if it spells out one.
    Text { text: String, number: Option<Binary32> },
    List(Vec<Json>),
    Object(Vec<(String, Json)>),
}

/// What an object holds under a name.
pub enum Field {
    Absent,
    Present(Json),
    Repeated,
}

/// A borrowed look at what an object holds under a name.
pub enum Found<'a> {
    Absent,
    Present(&'a Json),
    Repeated,
}

impl<'a> Found<'a> {
    pub open spec fn field(self) -> Field {
        match self {
            Found::Absent => Field::Absent,
            Found::Present(value) => Field::Present(*value),
            Found::Repeated => Field::Repeated,
        }
    }
}

/// What the members of an object hold under a name.
#[verifier::opaque]
pub open spec fn member(members: Seq<(String, Json)>, name: Seq<char>) -> Field
    decreases members.len(),
{
    if members.len() == 0 {
        Field::Absent
    } else {
        let earlier = member(members.drop_last(), name);
        if members.last().0@ == name {
            match earlier {
                Field::Absent => Field::Present(members.last().1),
                _ => Field::Repeated,
            }
        } else {
            earlier
        }
    }
}

/// What a structure is written as: an object, whose members go by their names,
/// or a list, whose members go by their places.
pub enum Shape {
    Members(Seq<(String, Json)>),
    Places(Seq<Json>),
}

impl Shape {
    /// What stands under a name, or at the place that goes with it.
    pub open spec fn at(self, name: Seq<char>, place: int) -> Field {
        match self {
            Shape::Members(members) => member(members, name),
            Shape::Places(values) => if 0 <= place < values.len() {
                Field::Present(values[place])
            } else {
                Field::Absent
            },
        }
    }

    /// What stands under a name that goes with no place.
    pub open spec fn named(self, name: Seq<char>) -> Field {
        match self {
            Shape::Members(members) => member(members, name),
            Shape::Places(_) => Field::Absent,
        }
    }

    /// A list holds no more than there are places for.
    pub open spec fn fits(self, places: nat) -> bool {
        match self {
            Shape::Members(_) => true,
            Shape::Places(values) => values.len() <= places,
        }
    }
}

/// The structure that a value writes out, if it writes out one.
pub open spec fn shape_of(value: Json) -> Option<Shape> {
    match value {
        Json::Object(members) => Some(Shape::Members(members@)),
        Json::List(values) => Some(Shape::Places(values@)),
        _ => None,
    }
}

/// A borrowed structure.
#[derive(Clone, Copy)]
pub enum Source<'a> {
    Members(&'a Vec<(String, Json)>),
    Places(&'a Vec<Json>),
}

impl<'a> Source<'a> {
    pub open spec fn shape(self) -> Shape {
        match self {
            Source::Members(members) => Shape::Members(members@),
            Source::Places(values) => Shape::Places(values@),
        }
    }

    /// Looks up what stands under a name, or at the place that goes with it.
    pub fn find(self, name: &str, place: usize) -> (found: Found<'a>)
        ensures
            found.field() == self.shape().at(name@, place as int),
    {
        match self {
            Source::Members(members) => find(members, name),
            Source::Places(values) => {
                if place < values.len() {
                    Found::Present(&values[place])
                } else {
                    Found::Absent
                }
            },
        }
    }

    /// Looks up what stands under a name that goes with no place.
    pub fn find_named(self, name: &str) -> (found: Found<'a>)
        ensures
            found.field() == self.shape().named(name@),
    {
        match self {
            Source::Members(members) => find(members, name),
            Source::Places(_) => Found::Absent,
        }
    }

    /// Whether there is a place for everything in a list.
    pub fn has_place(self, places: usize) -> (fits: bool)
        ensures
            fits == self.shape().fits(places as nat),
    {
        match self {
            Source::Members(_) => true,
            Source::Places(values) => values.len() <= places,
        }
    }
}

/// The structure that a value writes out.
pub fn source_of<'a>(value: &'a Json) -> (source: Option<Source<'a>>)
    ensures
        match source {
            Some(source) => shape_of(*value) == Some(source.shape()),
            None => shape_of(*value) is None,
        },
{
    match value {
        Json::Object(members) => Some(Source::Members(members)),
        Json::List(values) => Some(Source::Places(values)),
        _ => None,
    }
}

/// An object without members holds nothing under any name.
pub proof fn lemma_no_members()
    ensures
        forall|name: Seq<char>| #[trigger]
            member(Seq::<(String, Json)>::empty(), name) == Field::Absent,
{
    reveal_with_fuel(member, 1);
}

/// What two names for the same thing hold together.
pub open spec fn either(first: Field, second: Field) -> Field {
    match (first, second) {
        (Field::Absent, other) => other,
        (other, Field::Absent) => other,
        _ => Field::Repeated,
    }
}

/// The integers that a JSON number can be.
pub open spec fn json_integer(number: int) -> bool {
    -0x8000_0000_0000_0000 <= number <= 0xffff_ffff_ffff_ffff
}

/// The number that a value is, at the precision of a measurement.
pub open spec fn number(value: Json) -> Option<Binary32> {
    match value {
        Json::Integer(number) => if json_integer(number as int) {
            Some(Binary32::nearest_integer(number as int))
        } else {
            None
        },
        Json::Decimal(number) => Some(number),
        _ => None,
    }
}

/// Looks a name up in the members of an object.
pub fn find<'a>(members: &'a Vec<(String, Json)>, name: &str) -> (found: Found<'a>)
    ensures
        found.field() == member(members@, name@),
{
    let mut found: Found<'a> = Found::Absent;
    let mut at: usize = 0;
    proof {
        lemma_no_members();
        assert(members@.take(0) =~= Seq::<(String, Json)>::empty());
    }
    while at < members.len()
        invariant
            at <= members@.len(),
            found.field() == member(members@.take(at as int), name@),
        decreases members@.len() - at,
    {
        proof {
            reveal_with_fuel(member, 2);
            assert(members@.take(at + 1).drop_last() =~= members@.take(at as int));
        }
        let entry: &'a (String, Json) = &members[at];
        if same_text(entry.0.as_str(), name) {
            found = match found {
                Found::Absent => Found::Present(&entry.1),
                _ => Found::Repeated,
            };
        }
        at = at + 1;
    }
    assert(members@.take(at as int) =~= members@);
    found
}

/// Joins what two names for the same thing hold.
pub fn find_either<'a>(first: Found<'a>, second: Found<'a>) -> (found: Found<'a>)
    ensures
        found.field() == either(first.field(), second.field()),
{
    match first {
        Found::Absent => second,
        Found::Present(value) => match second {
            Found::Absent => Found::Present(value),
            _ => Found::Repeated,
        },
        Found::Repeated => Found::Repeated,
    }
}

/// The number that a value is, at the precision of a measurement.
pub fn as_number(value: &Json) -> (result: Option<Binary32>)
    ensures
        result == number(*value),
{
    match value {
        Json::Integer(number) => {
            if -0x8000_0000_0000_0000 <= *number && *number <= 0xffff_ffff_ffff_ffff {
                Some(Binary32::from_integer(*number))
            } else {
                None
            }
        },
        Json::Decimal(number) => Some(*number),
        _ => None,
    }
}

/// A number as it is written: JSON has none that is not finite, and writes
/// `null` in its place.
pub open spec fn written_number(number: Binary32) -> Json {
    if number.finite() {
        Json::Decimal(number)
    } else {
        Json::Null
    }
}

/// Writes a number.
pub fn write_number(number: Binary32) -> (value: Json)
    ensures
        value == written_number(number),
{
    if number.is_finite() {
        Json::Decimal(number)
    } else {
        Json::Null
    }
}

/// A member that holds a number, or `null` where there is none.
pub open spec fn optional_number(value: Option<Binary32>) -> Json {
    match value {
        Some(number) => written_number(number),
        None => Json::Null,
    }
}

/// Writes a number, or `null` where there is none.
pub fn write_optional(value: Option<Binary32>) -> (json: Json)
    ensures
        json == optional_number(value),
{
    match value {
        Some(number) => write_number(number),
        None => Json::Null,
    }
}

/// What an object holds after a member was put behind its others.
pub open spec fn extended(
    before: Seq<(String, Json)>,
    after: Seq<(String, Json)>,
    name: Seq<char>,
    value: Json,
) -> bool {
    forall|other: Seq<char>| #[trigger]
        member(after, other) == if other == name {
            either(member(before, name), Field::Present(value))
        } else {
            member(before, other)
        }
}

/// The members of an object that has none yet.
pub fn no_members() -> (members: Vec<(String, Json)>)
    ensures
        members@.len() == 0,
        forall|name: Seq<char>| #[trigger] member(members@, name) == Field::Absent,
{
    let members: Vec<(String, Json)> = Vec::new();
    proof {
        lemma_no_members();
        assert(members@ =~= Seq::<(String, Json)>::empty());
    }
    members
}

/// Puts a value under a name.
pub fn push_member(members: &mut Vec<(String, Json)>, name: &str, value: Json)
    ensures
        final(members)@.len() == old(members)@.len() + 1,
        extended(old(members)@, final(members)@, name@, value),
{
    let ghost before = members@;
    members.push((name.to_owned(), value));
    proof {
        reveal_with_fuel(member, 2);
        assert(members@.drop_last() =~= before);
    }
}

/// What an object holds after a member that may be left out was put behind its
/// others.
pub open spec fn extended_if(
    before: Seq<(String, Json)>,
    after: Seq<(String, Json)>,
    name: Seq<char>,
    value: Option<Json>,
) -> bool {
    match value {
        Some(value) => extended(before, after, name, value),
        None => after == before,
    }
}

/// Puts a value under a name, if there is one.
pub fn push_optional(members: &mut Vec<(String, Json)>, name: &str, value: Option<Json>)
    ensures
        final(members)@.len() == old(members)@.len() + if value is Some {
            1int
        } else {
            0int
        },
        extended_if(old(members)@, final(members)@, name@, value),
{
    if let Some(value) = value {
        push_member(members, name, value);
    }
}

/// Puts a number, or `null`, under a name.
pub fn push_number(members: &mut Vec<(String, Json)>, name: &str, value: Option<Binary32>)
    ensures
        final(members)@.len() == old(members)@.len() + 1,
        extended(old(members)@, final(members)@, name@, optional_number(value)),
{
    push_member(members, name, write_optional(value));
}

/// A lookup goes by the names alone: it finds the one member with the name,
/// nothing where no member has it, and more than one where several do.
pub proof fn lemma_a_lookup_finds_the_one_member(members: Seq<(String, Json)>, name: Seq<char>)
    ensures
        match member(members, name) {
            Field::Absent => forall|i: int|
                0 <= i < members.len() ==> (#[trigger] members[i]).0@ != name,
            Field::Present(value) => exists|at: int|
                0 <= at < members.len() && (#[trigger] members[at]).0@ == name && members[at].1
                    == value && forall|i: int|
                    0 <= i < members.len() && i != at ==> (#[trigger] members[i]).0@ != name,
            Field::Repeated => exists|i: int, j: int|
                0 <= i < j < members.len() && (#[trigger] members[i]).0@ == name && (
                #[trigger] members[j]).0@ == name,
        },
    decreases members.len(),
{
    reveal_with_fuel(member, 2);
    if members.len() > 0 {
        let fewer = members.drop_last();
        let last = members.len() - 1;
        lemma_a_lookup_finds_the_one_member(fewer, name);
        assert(forall|i: int| 0 <= i < fewer.len() ==> fewer[i] == #[trigger] members[i]);
        match member(fewer, name) {
            Field::Absent => {
                if members[last].0@ == name {
                    assert(members[last].1 == members.last().1);
                }
            },
            Field::Present(value) => {
                let at = choose|at: int|
                    0 <= at < fewer.len() && (#[trigger] fewer[at]).0@ == name && fewer[at].1
                        == value && forall|i: int|
                        0 <= i < fewer.len() && i != at ==> (#[trigger] fewer[i]).0@ != name;
                assert(members[at].0@ == name);
                if members[last].0@ == name {
                    assert(at < last);
                }
            },
            Field::Repeated => {
                let (i, j) = choose|i: int, j: int|
                    0 <= i < j < fewer.len() && (#[trigger] fewer[i]).0@ == name && (
                    #[trigger] fewer[j]).0@ == name;
                assert(members[i].0@ == name && members[j].0@ == name);
            },
        }
    }
}

/// In a list, what stands at a place is the value at that place, whatever its
/// name is, and nothing behind the last; in an object it goes by the name,
/// whatever the place.
pub proof fn lemma_lists_go_by_places_and_objects_by_names(
    members: Vec<(String, Json)>,
    values: Vec<Json>,
    name: Seq<char>,
    place: int,
)
    ensures
        shape_of(Json::List(values)) == Some(Shape::Places(values@)),
        shape_of(Json::Object(members)) == Some(Shape::Members(members@)),
        shape_of(Json::Null) is None,
        0 <= place < values@.len() ==> Shape::Places(values@).at(name, place) == Field::Present(
            values@[place],
        ),
        place < 0 || place >= values@.len() ==> Shape::Places(values@).at(name, place)
            == Field::Absent,
        Shape::Places(values@).named(name) == Field::Absent,
        Shape::Members(members@).at(name, place) == member(members@, name),
        Shape::Members(members@).named(name) == member(members@, name),
        place >= 0 ==> (Shape::Places(values@).fits(place as nat) <==> values@.len() <= place),
        place >= 0 ==> Shape::Members(members@).fits(place as nat),
{
}

/// A number that is written is read as the same number; what is no number is
/// `null`, and is read as none.
pub proof fn lemma_numbers_survive(value: Binary32)
    ensures
        value.finite() ==> number(written_number(value)) == Some(value),
        value.finite() ==> optional_number(Some(value)) == Json::Decimal(value),
        !value.finite() ==> written_number(value) == Json::Null,
        optional_number(None) == Json::Null,
        number(Json::Null) is None,
{
}

} // verus!
