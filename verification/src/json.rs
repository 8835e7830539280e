//! JSON values: the tree that the rest of the library reads, its model, and
//! the way to and from the values of `serde_json`.

use crate::text::{error_string, same_text};
use vstd::prelude::*;
use vstd::utf8::encode_utf8;

verus! {

/// A JSON value of `serde_json`, carried as it is.
#[verifier::external_type_specification]
#[verifier::external_body]
pub struct ExValue(serde_json::Value);

/// A JSON number of `serde_json`, carried as it is.
#[verifier::external_type_specification]
#[verifier::external_body]
pub struct ExNumber(serde_json::Number);

/// An error of `serde_json`, carried as it is.
#[verifier::external_type_specification]
#[verifier::external_body]
pub struct ExError(serde_json::Error);

/// What a JSON number is.
pub enum Num {
    /// An integer that is not negative.
    Unsigned(u64),
    /// A negative integer.
    Negative(i64),
    /// A finite double, by the 64 bits of its IEEE 754 representation.
    Double(u64),
}

/// The model of a JSON value.
pub enum Tree {
    Null,
    Bool(bool),
    Number(Num),
    Text(Seq<char>),
    List(Seq<Tree>),
    /// The members in the order in which they are walked.
    Object(Seq<(Seq<char>, Tree)>),
}

/// The value of the last member with the given name.
pub open spec fn member(members: Seq<(Seq<char>, Tree)>, name: Seq<char>) -> Option<Tree>
    decreases members.len(),
{
    if members.len() == 0 {
        None
    } else if members.last().0 == name {
        Some(members.last().1)
    } else {
        member(members.drop_last(), name)
    }
}

/// Whether `a` comes before `b` in the order of their characters' code points.
pub open spec fn precedes(a: Seq<char>, b: Seq<char>) -> bool
    decreases a.len(),
{
    if b.len() == 0 {
        false
    } else if a.len() == 0 {
        true
    } else if a[0] == b[0] {
        precedes(a.drop_first(), b.drop_first())
    } else {
        (a[0] as u32) < (b[0] as u32)
    }
}

/// Whether names stand in ascending order, so that none occurs twice.
pub open spec fn ascending(names: Seq<Seq<char>>) -> bool {
    forall|i: int, j: int|
        0 <= i < j < names.len() ==> precedes(#[trigger] names[i], #[trigger] names[j])
}

/// The names of the members of an object.
pub open spec fn names(members: Seq<(Seq<char>, Tree)>) -> Seq<Seq<char>> {
    members.map_values(|m: (Seq<char>, Tree)| m.0)
}

/// The length of the longest text in a list of values.
pub open spec fn longest_of(items: Seq<Tree>) -> nat
    decreases items,
{
    if items.len() == 0 {
        0
    } else {
        let rest = longest_of(items.drop_last());
        let last = items.last().longest();
        if rest < last {
            last
        } else {
            rest
        }
    }
}

/// The length of the longest text in the values of an object.
pub open spec fn longest_in(members: Seq<(Seq<char>, Tree)>) -> nat
    decreases members,
{
    if members.len() == 0 {
        0
    } else {
        let rest = longest_in(members.drop_last());
        let last = members.last().1.longest();
        if rest < last {
            last
        } else {
            rest
        }
    }
}

impl Tree {
    /// The member of an object with the given name.
    pub open spec fn get(self, name: Seq<char>) -> Option<Tree> {
        match self {
            Tree::Object(members) => member(members, name),
            _ => None,
        }
    }

    /// The member `second` of the member `first`.
    pub open spec fn at(self, first: Seq<char>, second: Seq<char>) -> Option<Tree> {
        match self.get(first) {
            Some(inner) => inner.get(second),
            None => None,
        }
    }

    /// The characters of a string.
    pub open spec fn text(self) -> Option<Seq<char>> {
        match self {
            Tree::Text(s) => Some(s),
            _ => None,
        }
    }

    /// The value of an integer that is not negative.
    pub open spec fn unsigned(self) -> Option<u64> {
        match self {
            Tree::Number(n) => n.unsigned(),
            _ => None,
        }
    }

    /// The value of an integer in the range of `i64`.
    pub open spec fn signed(self) -> Option<i64> {
        match self {
            Tree::Number(n) => n.signed(),
            _ => None,
        }
    }

    /// Whether the members of every object in the tree stand in ascending
    /// order of their names.
    pub open spec fn ordered(self) -> bool
        decreases self,
    {
        match self {
            Tree::List(items) => forall|i: int| 0 <= i < items.len() ==> (
            #[trigger] items[i]).ordered(),
            Tree::Object(members) => {
                &&& ascending(names(members))
                &&& forall|i: int|
                    0 <= i < members.len() ==> (#[trigger] members[i]).1.ordered()
            },
            _ => true,
        }
    }

    /// Whether at most `depth` lists and objects lie one within the other.
    pub open spec fn shallow(self, depth: nat) -> bool
        decreases self,
    {
        match self {
            Tree::List(items) => depth > 0 && forall|i: int|
                0 <= i < items.len() ==> (#[trigger] items[i]).shallow((depth - 1) as nat),
            Tree::Object(members) => depth > 0 && forall|i: int|
                0 <= i < members.len() ==> (#[trigger] members[i]).1.shallow((depth - 1) as nat),
            _ => true,
        }
    }

    /// Whether all numbers in the tree are integers.
    pub open spec fn integral(self) -> bool
        decreases self,
    {
        match self {
            Tree::Number(n) => !(n is Double),
            Tree::List(items) => forall|i: int|
                0 <= i < items.len() ==> (#[trigger] items[i]).integral(),
            Tree::Object(members) => forall|i: int|
                0 <= i < members.len() ==> (#[trigger] members[i]).1.integral(),
            _ => true,
        }
    }

    /// Whether all numbers in the tree are integers and it is not nested
    /// deeper than what can be read.
    pub open spec fn plain(self) -> bool {
        self.integral() && self.shallow(READING_DEPTH as nat)
    }

    /// Whether two trees are the same but for the values of their doubles.
    pub open spec fn alike(self, other: Tree) -> bool
        decreases self,
    {
        match (self, other) {
            (Tree::Number(Num::Double(_)), Tree::Number(Num::Double(_))) => true,
            (Tree::List(a), Tree::List(b)) => a.len() == b.len() && forall|i: int|
                0 <= i < a.len() ==> (#[trigger] a[i]).alike(b[i]),
            (Tree::Object(a), Tree::Object(b)) => names(a) == names(b) && forall|i: int|
                0 <= i < a.len() ==> (#[trigger] a[i]).1.alike(b[i].1),
            _ => self == other,
        }
    }

    /// The length of the longest string in the tree, names of members aside.
    pub open spec fn longest(self) -> nat
        decreases self,
    {
        match self {
            Tree::Text(s) => s.len(),
            Tree::List(items) => longest_of(items),
            Tree::Object(members) => longest_in(members),
            _ => 0,
        }
    }
}

impl Num {
    /// The value of an integer that is not negative.
    pub open spec fn unsigned(self) -> Option<u64> {
        match self {
            Num::Unsigned(n) => Some(n),
            _ => None,
        }
    }

    /// The value of an integer in the range of `i64`.
    pub open spec fn signed(self) -> Option<i64> {
        match self {
            Num::Unsigned(n) => if n <= i64::MAX {
                Some(n as i64)
            } else {
                None
            },
            Num::Negative(n) => Some(n),
            Num::Double(_) => None,
        }
    }
}

/// How deep lists and objects may lie one within the other in a JSON text
/// that is read.
pub const READING_DEPTH: u64 = 127;

/// The name of what a `serde_json::Number` is.
pub uninterp spec fn number_kind(number: serde_json::Number) -> Num;

/// The name of the tree that a `serde_json::Value` holds.
pub uninterp spec fn value_tree(value: serde_json::Value) -> Tree;

/// The name of what `serde_json::from_str` makes of a text: a tree, or the
/// text of its error.
pub uninterp spec fn parsed_text(text: Seq<char>) -> Result<Tree, Seq<char>>;

/// The name of what `serde_json::from_slice` makes of bytes: a tree, or the
/// text of its error.
pub uninterp spec fn parsed_bytes(bytes: Seq<u8>) -> Result<Tree, Seq<char>>;

/// The name of the text that `serde_json::to_string` writes for a tree.
pub uninterp spec fn canonical_text(tree: Tree) -> Seq<char>;

/// The name of the bytes that `serde_json::to_vec_pretty` writes for a tree.
pub uninterp spec fn pretty_bytes(tree: Tree) -> Seq<u8>;

/// `Number::as_u64`: the integer, where it is not negative.
#[verifier::external_body]
fn number_as_u64(number: &serde_json::Number) -> (n: Option<u64>)
    ensures
        n == number_kind(*number).unsigned(),
{
    number.as_u64()
}

/// `Number::as_i64`: the integer, where it lies in the range of `i64`. An
/// integer held as a negative one is less than zero.
#[verifier::external_body]
fn number_as_i64(number: &serde_json::Number) -> (n: Option<i64>)
    ensures
        n == number_kind(*number).signed(),
        number_kind(*number) is Negative ==> n.unwrap() < 0,
{
    number.as_i64()
}

/// `Number::as_f64`, as the bits of the double. Of a number that is a double
/// they are the double's own bits; of an integer nothing is stated.
#[verifier::external_body]
fn number_bits(number: &serde_json::Number) -> (bits: Option<u64>)
    ensures
        number_kind(*number) matches Num::Double(b) ==> bits == Some(b),
{
    number.as_f64().map(|double| double.to_bits())
}

/// `Number::from` on a `u64`: an integer that is not negative.
#[verifier::external_body]
fn number_from_u64(n: u64) -> (number: serde_json::Number)
    ensures
        number_kind(number) == Num::Unsigned(n),
{
    serde_json::Number::from(n)
}

/// `Number::from` on an `i64`: a negative integer, or one that is not.
#[verifier::external_body]
fn number_from_i64(n: i64) -> (number: serde_json::Number)
    ensures
        number_kind(number) == signed_num(n),
{
    serde_json::Number::from(n)
}

/// `Number::clone`: a number of the same kind and value.
#[verifier::external_body]
fn clone_number(number: &serde_json::Number) -> (copy: serde_json::Number)
    ensures
        number_kind(copy) == number_kind(*number),
{
    number.clone()
}

/// What an `i64` is as a JSON number.
pub open spec fn signed_num(n: i64) -> Num {
    if n < 0 {
        Num::Negative(n)
    } else {
        Num::Unsigned(n as u64)
    }
}

/// A JSON number.
#[derive(Debug, PartialEq)]
pub enum JsonNumber {
    Unsigned(u64),
    Signed(i64),
    /// A number as `serde_json` holds it.
    Held(serde_json::Number),
}

impl View for JsonNumber {
    type V = Num;

    open spec fn view(&self) -> Num {
        match *self {
            JsonNumber::Unsigned(n) => Num::Unsigned(n),
            JsonNumber::Signed(n) => signed_num(n),
            JsonNumber::Held(number) => number_kind(number),
        }
    }
}

impl JsonNumber {
    /// The value of an integer that is not negative.
    pub fn as_u64(&self) -> (n: Option<u64>)
        ensures
            n == self@.unsigned(),
    {
        match self {
            JsonNumber::Unsigned(n) => Some(*n),
            JsonNumber::Signed(n) => if *n < 0 {
                None
            } else {
                Some(*n as u64)
            },
            JsonNumber::Held(number) => number_as_u64(number),
        }
    }

    /// The value of an integer in the range of `i64`.
    pub fn as_i64(&self) -> (n: Option<i64>)
        ensures
            n == self@.signed(),
    {
        match self {
            JsonNumber::Unsigned(n) => if *n <= i64::MAX as u64 {
                Some(*n as i64)
            } else {
                None
            },
            JsonNumber::Signed(n) => Some(*n),
            JsonNumber::Held(number) => number_as_i64(number),
        }
    }

    /// The bits of a double.
    pub fn double_bits(&self) -> (bits: Option<u64>)
        ensures
            bits == match self@ {
                Num::Double(b) => Some(b),
                _ => None,
            },
    {
        match self {
            JsonNumber::Held(number) => if number_as_u64(number).is_none() && number_as_i64(
                number,
            ).is_none() {
                number_bits(number)
            } else {
                None
            },
            _ => None,
        }
    }
}

impl Clone for JsonNumber {
    fn clone(&self) -> (copy: Self)
        ensures
            copy@ == self@,
    {
        match self {
            JsonNumber::Unsigned(n) => JsonNumber::Unsigned(*n),
            JsonNumber::Signed(n) => JsonNumber::Signed(*n),
            JsonNumber::Held(number) => JsonNumber::Held(clone_number(number)),
        }
    }
}

/// A JSON value.
#[derive(Debug, PartialEq)]
pub enum Json {
    Null,
    Bool(bool),
    Number(JsonNumber),
    Text(String),
    List(Vec<Json>),
    /// The members in the order in which they are walked.
    Object(Vec<(String, Json)>),
}

impl Json {
    /// The tree that the value is.
    pub open spec fn tree(self) -> Tree
        decreases self,
    {
        match self {
            Json::Null => Tree::Null,
            Json::Bool(b) => Tree::Bool(b),
            Json::Number(n) => Tree::Number(n@),
            Json::Text(s) => Tree::Text(s@),
            Json::List(items) => Tree::List(
                Seq::new(
                    items@.len(),
                    |i: int|
                        if 0 <= i < items@.len() {
                            items@[i].tree()
                        } else {
                            Tree::Null
                        },
                ),
            ),
            Json::Object(members) => Tree::Object(
                Seq::new(
                    members@.len(),
                    |i: int|
                        if 0 <= i < members@.len() {
                            (members@[i].0@, members@[i].1.tree())
                        } else {
                            (Seq::empty(), Tree::Null)
                        },
                ),
            ),
        }
    }
}

impl View for Json {
    type V = Tree;

    open spec fn view(&self) -> Tree {
        self.tree()
    }
}

/// The trees of a sequence of values.
pub open spec fn trees(items: Seq<Json>) -> Seq<Tree> {
    items.map_values(|item: Json| item@)
}

/// The members of an object with their names and trees.
pub open spec fn member_trees(members: Seq<(String, Json)>) -> Seq<(Seq<char>, Tree)> {
    members.map_values(|m: (String, Json)| (m.0@, m.1@))
}

/// A list is the tree of its items, an object that of its members.
pub proof fn lemma_tree_parts(json: Json)
    ensures
        json matches Json::List(items) ==> json@ == Tree::List(trees(items@)),
        json matches Json::Object(members) ==> json@ == Tree::Object(member_trees(members@)),
{
    match json {
        Json::List(items) => {
            assert(json@->List_0 =~= trees(items@));
        },
        Json::Object(members) => {
            assert(json@->Object_0 =~= member_trees(members@));
        },
        _ => {},
    }
}

/// The outermost layer of a `serde_json::Value`.
enum Layer {
    Null,
    Bool(bool),
    Number(serde_json::Number),
    Text(String),
    List(Vec<serde_json::Value>),
    Object(Vec<(String, serde_json::Value)>),
}

spec fn value_trees(items: Seq<serde_json::Value>) -> Seq<Tree> {
    items.map_values(|item: serde_json::Value| value_tree(item))
}

spec fn value_members(members: Seq<(String, serde_json::Value)>) -> Seq<(Seq<char>, Tree)> {
    members.map_values(|m: (String, serde_json::Value)| (m.0@, value_tree(m.1)))
}

impl Layer {
    spec fn tree(self) -> Tree {
        match self {
            Layer::Null => Tree::Null,
            Layer::Bool(b) => Tree::Bool(b),
            Layer::Number(n) => Tree::Number(number_kind(n)),
            Layer::Text(s) => Tree::Text(s@),
            Layer::List(items) => Tree::List(value_trees(items@)),
            Layer::Object(members) => Tree::Object(value_members(members@)),
        }
    }

    spec fn names_ascend(self) -> bool {
        self matches Layer::Object(members) ==> ascending(names(value_members(members@)))
    }
}

/// Takes a `serde_json::Value` apart by its variant. The members of an object
/// come out of `serde_json::Map` in ascending order of their names.
#[verifier::external_body]
fn peel(value: serde_json::Value) -> (layer: Layer)
    ensures
        value_tree(value) == layer.tree(),
        layer.names_ascend(),
{
    match value {
        serde_json::Value::Null => Layer::Null,
        serde_json::Value::Bool(b) => Layer::Bool(b),
        serde_json::Value::Number(n) => Layer::Number(n),
        serde_json::Value::String(s) => Layer::Text(s),
        serde_json::Value::Array(items) => Layer::List(items),
        serde_json::Value::Object(members) => Layer::Object(members.into_iter().collect()),
    }
}

/// Puts a `serde_json::Value` together by its variant. A `serde_json::Map`
/// that is filled with ascending names holds the members in that order.
#[verifier::external_body]
fn assemble(layer: Layer) -> (value: serde_json::Value)
    requires
        layer.names_ascend(),
    ensures
        value_tree(value) == layer.tree(),
{
    match layer {
        Layer::Null => serde_json::Value::Null,
        Layer::Bool(b) => serde_json::Value::Bool(b),
        Layer::Number(n) => serde_json::Value::Number(n),
        Layer::Text(s) => serde_json::Value::String(s),
        Layer::List(items) => serde_json::Value::Array(items),
        Layer::Object(members) => serde_json::Value::Object(members.into_iter().collect()),
    }
}

impl Json {
    /// The value that a `serde_json::Value` holds.
    pub fn from_value(value: serde_json::Value) -> (json: Json)
        ensures
            json@ == value_tree(value),
            json@.ordered(),
        decreases value_tree(value),
    {
        let ghost tree = value_tree(value);
        match peel(value) {
            Layer::Null => Json::Null,
            Layer::Bool(b) => Json::Bool(b),
            Layer::Number(n) => Json::Number(JsonNumber::from_outside(n)),
            Layer::Text(s) => Json::Text(s),
            Layer::List(items) => {
                let ghost all = items@;
                let mut out: Vec<Json> = Vec::new();
                for item in it: items
                    invariant
                        it.seq() == all,
                        tree == value_tree(value),
                        tree == Tree::List(value_trees(all)),
                        trees(out@) == value_trees(all).take(it.index() as int),
                        forall|i: int| 0 <= i < out@.len() ==> (#[trigger] out@[i])@.ordered(),
                {
                    assert(value_tree(item) == tree->List_0[it.index() as int]);
                    assert(decreases_to!(tree => tree->List_0));
                    let ghost before = out@;
                    out.push(Json::from_value(item));
                    assert(trees(out@) == trees(before).push(value_tree(item)));
                    assert(value_trees(all).take(it.index() + 1) == value_trees(all).take(
                        it.index() as int,
                    ).push(value_tree(item)));
                }
                let json = Json::List(out);
                proof {
                    lemma_tree_parts(json);
                    assert(value_trees(all).take(all.len() as int) == value_trees(all));
                    assert forall|i: int| 0 <= i < json@->List_0.len() implies #[trigger] json@->List_0[i].ordered() by {
                        assert(out@[i]@ == json@->List_0[i]);
                    }
                }
                json
            },
            Layer::Object(members) => {
                let ghost all = members@;
                let mut out: Vec<(String, Json)> = Vec::new();
                for m in it: members
                    invariant
                        it.seq() == all,
                        tree == value_tree(value),
                        tree == Tree::Object(value_members(all)),
                        member_trees(out@) == value_members(all).take(it.index() as int),
                        forall|i: int| 0 <= i < out@.len() ==> (#[trigger] out@[i]).1@.ordered(),
                {
                    assert((m.0@, value_tree(m.1)) == tree->Object_0[it.index() as int]);
                    assert(decreases_to!(tree => tree->Object_0));
                    assert(decreases_to!(tree->Object_0 => tree->Object_0[it.index() as int]));
                    let ghost before = out@;
                    let ghost entry = (m.0@, value_tree(m.1));
                    assert(decreases_to!(entry => entry.1));
                    let (name, inner) = m;
                    out.push((name, Json::from_value(inner)));
                    assert(member_trees(out@) == member_trees(before).push(entry));
                    assert(value_members(all).take(it.index() + 1) == value_members(all).take(
                        it.index() as int,
                    ).push(entry));
                }
                let json = Json::Object(out);
                proof {
                    lemma_tree_parts(json);
                    assert(value_members(all).take(all.len() as int) == value_members(all));
                    assert forall|i: int| 0 <= i < json@->Object_0.len() implies (
                    #[trigger] json@->Object_0[i]).1.ordered() by {
                        assert(out@[i].1@ == json@->Object_0[i].1);
                    }
                }
                json
            },
        }
    }
}

impl JsonNumber {
    /// The number that a `serde_json::Number` is.
    pub fn from_outside(number: serde_json::Number) -> (n: JsonNumber)
        ensures
            n@ == number_kind(number),
    {
        match number_as_u64(&number) {
            Some(n) => JsonNumber::Unsigned(n),
            None => match number_as_i64(&number) {
                Some(n) => JsonNumber::Signed(n),
                None => JsonNumber::Held(number),
            },
        }
    }

    /// The number as `serde_json` holds it.
    pub fn to_outside(&self) -> (number: serde_json::Number)
        ensures
            number_kind(number) == self@,
    {
        match self {
            JsonNumber::Unsigned(n) => number_from_u64(*n),
            JsonNumber::Signed(n) => number_from_i64(*n),
            JsonNumber::Held(number) => clone_number(number),
        }
    }
}

/// The text of an error of `serde_json`, as its `Display` writes it.
spec fn shows(error: serde_json::Error, text: Seq<char>) -> bool {
    forall|s: String|
        vstd::string::to_string_from_display_ensures(&error, s) ==> #[trigger] s@ == text
}

/// `serde_json::from_str` into a `serde_json::Value`. Its result is named.
/// Each character of a string in the tree comes from at least one character
/// of the text, and two quotation marks stand around it. A text that opens
/// with a bracket holds a list. A tree that is nested deeper than
/// `READING_DEPTH` is refused. `serde_json::from_slice` reads the same tree
/// from the bytes of the text.
#[verifier::external_body]
fn value_from_str(text: &str) -> (result: Result<serde_json::Value, serde_json::Error>)
    ensures
        match result {
            Ok(value) => {
                &&& parsed_text(text@) == Ok::<Tree, Seq<char>>(value_tree(value))
                &&& value_tree(value).longest() < text@.len()
                &&& text@[0] == '[' ==> value_tree(value) is List
                &&& value_tree(value).shallow(READING_DEPTH as nat)
                &&& parsed_bytes(encode_utf8(text@)) == Ok::<Tree, Seq<char>>(value_tree(value))
            },
            Err(error) => parsed_text(text@) is Err && shows(error, parsed_text(text@)->Err_0),
        },
{
    serde_json::from_str::<serde_json::Value>(text)
}

/// `serde_json::from_slice` into a `serde_json::Value`. Its result is named.
/// A tree that is nested deeper than `READING_DEPTH` is refused.
#[verifier::external_body]
fn value_from_slice(bytes: &[u8]) -> (result: Result<serde_json::Value, serde_json::Error>)
    ensures
        match result {
            Ok(value) => parsed_bytes(bytes@) == Ok::<Tree, Seq<char>>(value_tree(value))
                && value_tree(value).shallow(READING_DEPTH as nat),
            Err(error) => parsed_bytes(bytes@) is Err && shows(error, parsed_bytes(bytes@)->Err_0),
        },
{
    serde_json::from_slice::<serde_json::Value>(bytes)
}

/// Whether what was read differs from a tree in its doubles at most.
pub open spec fn alike_if_read(tree: Tree, read: Result<Tree, Seq<char>>) -> bool {
    match read {
        Ok(again) => tree.alike(again),
        Err(_) => true,
    }
}

/// Whether a tree was read, and nothing else.
pub open spec fn is_read(tree: Tree, read: Result<Tree, Seq<char>>) -> bool {
    read == Ok::<Tree, Seq<char>>(tree)
}

/// `serde_json::to_string`, with nothing in place of an error. Its result is
/// named. As with `serde_json::to_vec_pretty`, there is no error, a tree that
/// is not nested too deep can be read from the text, one that is plain is read
/// back, and what is read differs from the tree in its doubles at most.
#[verifier::external_body]
fn value_to_string(value: &serde_json::Value) -> (text: String)
    ensures
        text@ == canonical_text(value_tree(*value)),
        value_tree(*value).shallow(READING_DEPTH as nat) ==> parsed_text(text@) is Ok,
        value_tree(*value).plain() ==> is_read(value_tree(*value), parsed_text(text@)),
        alike_if_read(value_tree(*value), parsed_text(text@)),
{
    serde_json::to_string(value).unwrap_or_default()
}

/// `serde_json::to_vec_pretty`. Its result is named: a `serde_json::Value`
/// has only strings for names, its doubles are finite, and a vector takes
/// every write, so there is no error. A tree that is not nested too deep can
/// be read from what was written. A double is refused only where its digits
/// times the power of ten overflow, and the digits that are written for a
/// finite double, the largest one included, never do. Without doubles the tree
/// is read back. A double may come back as its neighbour; what is read differs
/// in nothing else.
#[verifier::external_body]
fn value_to_vec_pretty(value: &serde_json::Value) -> (result: Result<Vec<u8>, serde_json::Error>)
    ensures
        match result {
            Ok(bytes) => {
                &&& bytes@ == pretty_bytes(value_tree(*value))
                &&& value_tree(*value).shallow(READING_DEPTH as nat) ==> parsed_bytes(bytes@) is Ok
                &&& value_tree(*value).plain() ==> parsed_bytes(bytes@) == Ok::<Tree, Seq<char>>(
                    value_tree(*value),
                )
                &&& alike_if_read(value_tree(*value), parsed_bytes(bytes@))
            },
            Err(_) => false,
        },
{
    serde_json::to_vec_pretty(value)
}

impl Json {
    /// The value as a `serde_json::Value`.
    pub fn to_value(&self) -> (value: serde_json::Value)
        requires
            self@.ordered(),
        ensures
            value_tree(value) == self@,
        decreases self,
    {
        match self {
            Json::Null => assemble(Layer::Null),
            Json::Bool(b) => assemble(Layer::Bool(*b)),
            Json::Number(n) => assemble(Layer::Number(n.to_outside())),
            Json::Text(s) => assemble(Layer::Text(s.clone())),
            Json::List(items) => {
                let mut out: Vec<serde_json::Value> = Vec::new();
                let mut i: usize = 0;
                proof {
                    lemma_tree_parts(*self);
                }
                while i < items.len()
                    invariant
                        i <= items@.len(),
                        *self == Json::List(*items),
                        self@ == Tree::List(trees(items@)),
                        self@.ordered(),
                        value_trees(out@) == trees(items@).take(i as int),
                    decreases items@.len() - i,
                {
                    let ghost before = out@;
                    assert(self@->List_0[i as int].ordered());
                    out.push(items[i].to_value());
                    assert(value_trees(out@) == value_trees(before).push(items@[i as int]@));
                    assert(trees(items@).take(i + 1) == trees(items@).take(i as int).push(
                        items@[i as int]@,
                    ));
                    i = i + 1;
                }
                assert(trees(items@).take(i as int) == trees(items@));
                assemble(Layer::List(out))
            },
            Json::Object(members) => {
                let mut out: Vec<(String, serde_json::Value)> = Vec::new();
                let mut i: usize = 0;
                proof {
                    lemma_tree_parts(*self);
                }
                while i < members.len()
                    invariant
                        i <= members@.len(),
                        *self == Json::Object(*members),
                        self@ == Tree::Object(member_trees(members@)),
                        self@.ordered(),
                        value_members(out@) == member_trees(members@).take(i as int),
                    decreases members@.len() - i,
                {
                    let ghost before = out@;
                    let ghost entry = (members@[i as int].0@, members@[i as int].1@);
                    assert(entry == self@->Object_0[i as int]);
                    out.push((members[i].0.clone(), members[i].1.to_value()));
                    assert(value_members(out@) == value_members(before).push(entry));
                    assert(member_trees(members@).take(i + 1) == member_trees(members@).take(
                        i as int,
                    ).push(entry));
                    i = i + 1;
                }
                assert(member_trees(members@).take(i as int) == member_trees(members@));
                assemble(Layer::Object(out))
            },
        }
    }

    /// The member of an object with the given name.
    pub fn get(&self, name: &str) -> (found: Option<&Json>)
        ensures
            found is Some <==> self@.get(name@) is Some,
            found matches Some(inner) ==> self@.get(name@) == Some(inner@) && (self@.ordered()
                ==> inner@.ordered()),
    {
        match self {
            Json::Object(members) => {
                let ghost all = member_trees(members@);
                let mut i: usize = members.len();
                proof {
                    lemma_tree_parts(*self);
                    assert(all.take(all.len() as int) == all);
                }
                while i > 0
                    invariant
                        i <= members@.len(),
                        all == member_trees(members@),
                        self@ == Tree::Object(all),
                        member(all, name@) == member(all.take(i as int), name@),
                    decreases i,
                {
                    assert(all.take(i as int).drop_last() == all.take(i - 1));
                    assert(all.take(i as int).last() == all[i - 1]);
                    if same_text(members[i - 1].0.as_str(), name) {
                        assert(all[i - 1].1 == members@[i - 1].1@);
                        return Some(&members[i - 1].1);
                    }
                    i = i - 1;
                }
                None
            },
            _ => None,
        }
    }

    /// The member `second` of the member `first`.
    pub fn at(&self, first: &str, second: &str) -> (found: Option<&Json>)
        ensures
            found is Some <==> self@.at(first@, second@) is Some,
            found matches Some(inner) ==> self@.at(first@, second@) == Some(inner@) && (
            self@.ordered() ==> inner@.ordered()),
    {
        match self.get(first) {
            Some(inner) => inner.get(second),
            None => None,
        }
    }

    /// The text of a string.
    pub fn as_str(&self) -> (text: Option<&str>)
        ensures
            text is Some <==> self@.text() is Some,
            text matches Some(s) ==> self@.text() == Some(s@),
    {
        match self {
            Json::Text(s) => Some(s.as_str()),
            _ => None,
        }
    }

    /// Whether the value is an object.
    pub fn is_object(&self) -> (yes: bool)
        ensures
            yes == (self@ is Object),
    {
        match self {
            Json::Object(_) => true,
            _ => false,
        }
    }

    /// Whether the value is null.
    pub fn is_null(&self) -> (yes: bool)
        ensures
            yes == (self@ is Null),
    {
        match self {
            Json::Null => true,
            _ => false,
        }
    }

    /// The value of an integer that is not negative.
    pub fn as_u64(&self) -> (n: Option<u64>)
        ensures
            n == self@.unsigned(),
    {
        match self {
            Json::Number(n) => n.as_u64(),
            _ => None,
        }
    }

    /// The value of an integer in the range of `i64`.
    pub fn as_i64(&self) -> (n: Option<i64>)
        ensures
            n == self@.signed(),
    {
        match self {
            Json::Number(n) => n.as_i64(),
            _ => None,
        }
    }
}

impl Json {
    /// A copy of the value.
    pub fn copy(&self) -> (copy: Json)
        ensures
            copy@ == self@,
        decreases self,
    {
        match self {
            Json::Null => Json::Null,
            Json::Bool(b) => Json::Bool(*b),
            Json::Number(n) => Json::Number(n.clone()),
            Json::Text(s) => Json::Text(s.clone()),
            Json::List(items) => {
                let mut out: Vec<Json> = Vec::new();
                let mut i: usize = 0;
                while i < items.len()
                    invariant
                        i <= items@.len(),
                        *self == Json::List(*items),
                        trees(out@) == trees(items@).take(i as int),
                    decreases items@.len() - i,
                {
                    let ghost before = out@;
                    assert(decreases_to!(*self => self->List_0));
                    assert(decreases_to!(*items => items@));
                    assert(decreases_to!(items@ => items@[i as int]));
                    out.push(items[i].copy());
                    assert(trees(out@) == trees(before).push(items@[i as int]@));
                    assert(trees(items@).take(i + 1) == trees(items@).take(i as int).push(
                        items@[i as int]@,
                    ));
                    i = i + 1;
                }
                assert(trees(items@).take(i as int) == trees(items@));
                let copy = Json::List(out);
                proof {
                    lemma_tree_parts(*self);
                    lemma_tree_parts(copy);
                }
                copy
            },
            Json::Object(members) => {
                let mut out: Vec<(String, Json)> = Vec::new();
                let mut i: usize = 0;
                while i < members.len()
                    invariant
                        i <= members@.len(),
                        *self == Json::Object(*members),
                        member_trees(out@) == member_trees(members@).take(i as int),
                    decreases members@.len() - i,
                {
                    let ghost before = out@;
                    let ghost entry = (members@[i as int].0@, members@[i as int].1@);
                    assert(decreases_to!(*self => self->Object_0));
                    assert(decreases_to!(*members => members@));
                    assert(decreases_to!(members@ => members@[i as int]));
                    assert(decreases_to!(members@[i as int] => members@[i as int].1));
                    out.push((members[i].0.clone(), members[i].1.copy()));
                    assert(member_trees(out@) == member_trees(before).push(entry));
                    assert(member_trees(members@).take(i + 1) == member_trees(members@).take(
                        i as int,
                    ).push(entry));
                    i = i + 1;
                }
                assert(member_trees(members@).take(i as int) == member_trees(members@));
                let copy = Json::Object(out);
                proof {
                    lemma_tree_parts(*self);
                    lemma_tree_parts(copy);
                }
                copy
            },
        }
    }
}

impl Clone for Json {
    fn clone(&self) -> (copy: Self)
        ensures
            copy@ == self@,
    {
        self.copy()
    }
}

/// Reads a JSON text.
pub fn parse(text: &str) -> (result: Result<Json, String>)
    ensures
        match result {
            Ok(json) => {
                &&& parsed_text(text@) == Ok::<Tree, Seq<char>>(json@)
                &&& json@.ordered()
                &&& json@.longest() < text@.len()
                &&& text@[0] == '[' ==> json@ is List
                &&& json@.shallow(READING_DEPTH as nat)
                &&& parsed_bytes(encode_utf8(text@)) == Ok::<Tree, Seq<char>>(json@)
            },
            Err(message) => parsed_text(text@) == Err::<Tree, Seq<char>>(message@),
        },
{
    match value_from_str(text) {
        Ok(value) => Ok(Json::from_value(value)),
        Err(error) => Err(error_string(error)),
    }
}

/// Reads the bytes of a JSON text.
pub fn parse_bytes(bytes: &[u8]) -> (result: Result<Json, String>)
    ensures
        match result {
            Ok(json) => parsed_bytes(bytes@) == Ok::<Tree, Seq<char>>(json@) && json@.ordered()
                && json@.shallow(READING_DEPTH as nat),
            Err(message) => parsed_bytes(bytes@) == Err::<Tree, Seq<char>>(message@),
        },
{
    match value_from_slice(bytes) {
        Ok(value) => Ok(Json::from_value(value)),
        Err(error) => Err(error_string(error)),
    }
}

/// Whether the compact text of a tree reads back: it can be read where the
/// tree is not nested too deep, a plain tree comes out of it again, and of any
/// other tree only doubles may differ.
pub open spec fn text_reads_back(tree: Tree) -> bool {
    &&& tree.shallow(READING_DEPTH as nat) ==> parsed_text(canonical_text(tree)) is Ok
    &&& tree.plain() ==> parsed_text(canonical_text(tree)) == Ok::<Tree, Seq<char>>(tree)
    &&& alike_if_read(tree, parsed_text(canonical_text(tree)))
}

/// The compact text of a value, by which two values are compared.
pub fn canonical(value: &Json) -> (text: String)
    requires
        value@.ordered(),
    ensures
        text@ == canonical_text(value@),
        text_reads_back(value@),
{
    value_to_string(&value.to_value())
}

/// The bytes of a value as they are written to a file. They can be read where
/// the value is not nested too deep. Without doubles it is read back from
/// them; what is read differs from the value in its doubles at most.
pub fn pretty(value: &Json) -> (result: Result<Vec<u8>, String>)
    requires
        value@.ordered(),
    ensures
        result is Ok,
        result->Ok_0@ == pretty_bytes(value@),
        value@.shallow(READING_DEPTH as nat) ==> parsed_bytes(result->Ok_0@) is Ok,
        value@.plain() ==> parsed_bytes(result->Ok_0@) == Ok::<Tree, Seq<char>>(value@),
        alike_if_read(value@, parsed_bytes(result->Ok_0@)),
{
    match value_to_vec_pretty(&value.to_value()) {
        Ok(bytes) => Ok(bytes),
        Err(error) => Err(error_string(error)),
    }
}

/// A member of an object is found by its name, whatever else the object holds:
/// the last one that has the name. Nothing is found where none has it.
pub proof fn law_member_is_found(
    members: Seq<(Seq<char>, Tree)>,
    name: Seq<char>,
    value: Tree,
)
    ensures
        Tree::Object(members).get(name) == Some(value) <==> exists|i: int|
            0 <= i < members.len() && #[trigger] members[i] == (name, value) && forall|j: int|
                i < j < members.len() ==> (#[trigger] members[j]).0 != name,
        Tree::Object(members).get(name) is None <==> forall|i: int|
            0 <= i < members.len() ==> (#[trigger] members[i]).0 != name,
    decreases members.len(),
{
    if members.len() > 0 {
        let before = members.drop_last();
        let k = members.len() - 1;
        law_member_is_found(before, name, value);
        assert(members[k] == members.last());
        assert forall|i: int| 0 <= i < k implies #[trigger] members[i] == before[i] by {}
        if members[k].0 != name {
            assert(Tree::Object(members).get(name) == Tree::Object(before).get(name));
            if Tree::Object(before).get(name) == Some(value) {
                let i = choose|i: int|
                    0 <= i < before.len() && #[trigger] before[i] == (name, value) && forall|j: int|
                        i < j < before.len() ==> (#[trigger] before[j]).0 != name;
                assert(members[i] == (name, value));
                assert forall|j: int| i < j < members.len() implies (#[trigger] members[j]).0
                    != name by {
                    if j < k {
                        assert(before[j].0 != name);
                    }
                }
            }
            if exists|i: int|
                0 <= i < members.len() && #[trigger] members[i] == (name, value) && forall|j: int|
                    i < j < members.len() ==> (#[trigger] members[j]).0 != name {
                let i = choose|i: int|
                    0 <= i < members.len() && #[trigger] members[i] == (name, value)
                        && forall|j: int|
                        i < j < members.len() ==> (#[trigger] members[j]).0 != name;
                assert(before[i] == (name, value));
                assert forall|j: int| i < j < before.len() implies (#[trigger] before[j]).0
                    != name by {
                    assert(members[j].0 != name);
                }
            }
            if Tree::Object(before).get(name) is None {
                assert forall|i: int| 0 <= i < members.len() implies (#[trigger] members[i]).0
                    != name by {
                    if i < k {
                        assert(before[i].0 != name);
                    }
                }
            }
            if forall|i: int| 0 <= i < members.len() ==> (#[trigger] members[i]).0 != name {
                assert forall|i: int| 0 <= i < before.len() implies (#[trigger] before[i]).0
                    != name by {
                    assert(members[i].0 != name);
                }
            }
        } else if exists|i: int|
            0 <= i < members.len() && #[trigger] members[i] == (name, value) && forall|j: int|
                i < j < members.len() ==> (#[trigger] members[j]).0 != name {
            let i = choose|i: int|
                0 <= i < members.len() && #[trigger] members[i] == (name, value) && forall|j: int|
                    i < j < members.len() ==> (#[trigger] members[j]).0 != name;
            if i < k {
                assert(members[k].0 != name);
            }
        }
    }
}

/// Only objects have members, and a member of a member is found step by step.
pub proof fn law_members_lead_on(
    tree: Tree,
    first: Seq<char>,
    second: Seq<char>,
    value: Tree,
)
    ensures
        !(tree is Object) ==> tree.get(first) is None,
        tree.at(first, second) == Some(value) <==> exists|inner: Tree|
            tree.get(first) == Some(inner) && #[trigger] inner.get(second) == Some(value),
{
    if tree.at(first, second) == Some(value) {
        let inner = tree.get(first)->0;
        assert(inner.get(second) == Some(value));
    }
}

/// A text is read from a string alone, and an integer from a number that is
/// that integer alone.
pub proof fn law_scalars_are_read(tree: Tree, text: Seq<char>, unsigned: u64, signed: i64)
    ensures
        tree.text() == Some(text) <==> tree == Tree::Text(text),
        tree.unsigned() == Some(unsigned) <==> tree == Tree::Number(Num::Unsigned(unsigned)),
        tree.signed() == Some(signed) <==> tree == Tree::Number(Num::Negative(signed)) || (tree
            matches Tree::Number(Num::Unsigned(n)) && n == signed),
{
}

/// A value stands for the tree that has the same shape and holds the same.
pub proof fn law_value_is_its_tree(json: Json)
    ensures
        match json {
            Json::Null => json@ == Tree::Null,
            Json::Bool(b) => json@ == Tree::Bool(b),
            Json::Number(n) => json@ == Tree::Number(n@),
            Json::Text(s) => json@ == Tree::Text(s@),
            Json::List(items) => json@ matches Tree::List(parts) && parts.len() == items@.len()
                && forall|i: int|
                0 <= i < parts.len() ==> #[trigger] parts[i] == items@[i]@,
            Json::Object(members) => json@ matches Tree::Object(parts) && parts.len()
                == members@.len() && forall|i: int|
                0 <= i < parts.len() ==> #[trigger] parts[i] == (
                    members@[i].0@,
                    members@[i].1@,
                ),
        },
{
    lemma_tree_parts(json);
}

/// The longest string of a tree is at least as long as that of each of its
/// parts, and it is the string of one of them.
pub proof fn law_longest(tree: Tree, items: Seq<Tree>, i: int)
    ensures
        tree matches Tree::Text(s) ==> tree.longest() == s.len(),
        !(tree is Text || tree is List || tree is Object) ==> tree.longest() == 0,
        0 <= i < items.len() ==> items[i].longest() <= Tree::List(items).longest(),
        Tree::List(items).longest() > 0 ==> exists|k: int|
            0 <= k < items.len() && (#[trigger] items[k]).longest() == Tree::List(items).longest(),
    decreases items.len(),
{
    if items.len() > 0 {
        let before = items.drop_last();
        law_longest(tree, before, i);
        assert(items[items.len() - 1] == items.last());
        if Tree::List(before).longest() > 0 {
            let k = choose|k: int|
                0 <= k < before.len() && (#[trigger] before[k]).longest() == Tree::List(
                    before,
                ).longest();
            assert(items[k] == before[k]);
        }
    }
}

/// The values of an object have the longest string of the object.
pub proof fn law_longest_in_an_object(members: Seq<(Seq<char>, Tree)>)
    ensures
        Tree::Object(members).longest() == Tree::List(
            members.map_values(|m: (Seq<char>, Tree)| m.1),
        ).longest(),
    decreases members.len(),
{
    let values = members.map_values(|m: (Seq<char>, Tree)| m.1);
    if members.len() > 0 {
        law_longest_in_an_object(members.drop_last());
        assert(values.drop_last() == members.drop_last().map_values(
            |m: (Seq<char>, Tree)| m.1,
        ));
        assert(values.last() == members.last().1);
    }
}

/// The trees of values are what the values stand for, one by one.
pub proof fn law_trees(items: Seq<Json>, members: Seq<(String, Json)>)
    ensures
        trees(items).len() == items.len(),
        forall|i: int| 0 <= i < items.len() ==> #[trigger] trees(items)[i] == items[i]@,
        member_trees(members).len() == members.len(),
        forall|i: int|
            0 <= i < members.len() ==> #[trigger] member_trees(members)[i] == (
                members[i].0@,
                members[i].1@,
            ),
{
}

/// A number stands for the integer that it holds, or for what `serde_json`
/// holds.
pub proof fn law_number_is_its_kind(number: JsonNumber)
    ensures
        match number {
            JsonNumber::Unsigned(n) => number@ == Num::Unsigned(n),
            JsonNumber::Signed(n) => if n < 0 {
                number@ == Num::Negative(n)
            } else {
                number@ == Num::Unsigned(n as u64)
            },
            JsonNumber::Held(held) => number@ == number_kind(held),
        },
{
}

} // verus!
