//! JSON values as the engine sees them.

use vstd::prelude::*;

verus! {

/// A JSON value. A number is held as its canonical decimal text, so that two
/// numbers are equal exactly when they print alike. An object is the list of
/// its members in the order in which they are kept.
#[derive(Debug)]
pub enum Json {
    Null,
    Bool(bool),
    Number(String),
    String(String),
    Array(Vec<Json>),
    Object(Vec<(String, Json)>),
}

/// `serde_json::Value`, as a type whose inside is not seen; values of it
/// only pass between the functions below that call `serde_json`.
#[verifier::external_type_specification]
#[verifier::external_body]
pub struct ExValue(serde_json::Value);

/// The mathematical value of a [`Json`].
pub enum JsonView {
    Null,
    Bool(bool),
    Number(Seq<char>),
    String(Seq<char>),
    Array(Seq<JsonView>),
    Object(Seq<(Seq<char>, JsonView)>),
}

/// The value that a [`Json`] stands for.
pub open spec fn json_view(j: Json) -> JsonView
    decreases j,
{
    match j {
        Json::Null => JsonView::Null,
        Json::Bool(b) => JsonView::Bool(b),
        Json::Number(n) => JsonView::Number(n@),
        Json::String(s) => JsonView::String(s@),
        Json::Array(items) => JsonView::Array(
            Seq::new(
                items@.len(),
                |i: int|
                    if 0 <= i < items@.len() {
                        json_view(items@[i])
                    } else {
                        JsonView::Null
                    },
            ),
        ),
        Json::Object(members) => JsonView::Object(
            Seq::new(
                members@.len(),
                |i: int|
                    if 0 <= i < members@.len() {
                        (members@[i].0@, json_view(members@[i].1))
                    } else {
                        (Seq::empty(), JsonView::Null)
                    },
            ),
        ),
    }
}

/// What `serde_json` reads out of a text: the value, where the text is JSON.
pub uninterp spec fn json_of_text(text: Seq<char>) -> Option<JsonView>;

/// The canonical text of the JSON number that `serde_json` reads out of a
/// text, where the text is a number.
pub uninterp spec fn number_of_text(text: Seq<char>) -> Option<Seq<char>>;

/// The character of a decimal digit.
pub open spec fn digit(d: nat) -> char {
    if d == 0 {
        '0'
    } else if d == 1 {
        '1'
    } else if d == 2 {
        '2'
    } else if d == 3 {
        '3'
    } else if d == 4 {
        '4'
    } else if d == 5 {
        '5'
    } else if d == 6 {
        '6'
    } else if d == 7 {
        '7'
    } else if d == 8 {
        '8'
    } else {
        '9'
    }
}

/// The decimal digits of a number, without leading zeros.
pub open spec fn digits(n: nat) -> Seq<char>
    decreases n,
{
    if n < 10 {
        seq![digit(n)]
    } else {
        digits(n / 10).push(digit(n % 10))
    }
}

/// An integer in decimal notation, with a minus sign where it is negative.
pub open spec fn decimal(i: int) -> Seq<char> {
    if i < 0 {
        seq!['-'] + digits((-i) as nat)
    } else {
        digits(i as nat)
    }
}

/// Hands a value of `serde_json` over as a [`Json`], part by part; a number
/// becomes the text under which `serde_json` prints it.
#[verifier::external_body]
pub(crate) fn from_serde(v: &serde_json::Value) -> Json {
    match v {
        serde_json::Value::Null => Json::Null,
        serde_json::Value::Bool(b) => Json::Bool(*b),
        serde_json::Value::Number(n) => Json::Number(n.to_string()),
        serde_json::Value::String(s) => Json::String(s.clone()),
        serde_json::Value::Array(a) => Json::Array(a.iter().map(from_serde).collect()),
        serde_json::Value::Object(o) => Json::Object(
            o.iter().map(|(k, v)| (k.clone(), from_serde(v))).collect(),
        ),
    }
}

/// Hands a [`Json`] over as a value of `serde_json`, part by part. A number
/// is read back from its text by `serde_json::Number::from_str`; a text
/// that is no number is handed over as a string.
#[verifier::external_body]
pub(crate) fn to_serde(j: &Json) -> serde_json::Value {
    match j {
        Json::Null => serde_json::Value::Null,
        Json::Bool(b) => serde_json::Value::Bool(*b),
        Json::Number(n) => match n.parse::<serde_json::Number>() {
            Ok(number) => serde_json::Value::Number(number),
            Err(_) => serde_json::Value::String(n.clone()),
        },
        Json::String(s) => serde_json::Value::String(s.clone()),
        Json::Array(a) => serde_json::Value::Array(a.iter().map(to_serde).collect()),
        Json::Object(o) => serde_json::Value::Object(
            o.iter().map(|(k, v)| (k.clone(), to_serde(v))).collect(),
        ),
    }
}

/// `serde_json::from_str`: the value that a text stands for, if it is JSON.
/// The same text always gives the same value.
#[verifier::external_body]
pub(crate) fn parse_json(text: &str) -> (r: Option<Json>)
    ensures
        match r {
            Some(j) => json_of_text(text@) == Some(j@),
            None => json_of_text(text@) is None,
        },
{
    match serde_json::from_str::<serde_json::Value>(text) {
        Ok(v) => Some(from_serde(&v)),
        Err(_) => None,
    }
}

/// `serde_json::Number::from_str`: the number that a text stands for, as the
/// text under which `serde_json` prints it, if the text is a number.
#[verifier::external_body]
pub(crate) fn parse_number(text: &str) -> (r: Option<String>)
    ensures
        match r {
            Some(n) => number_of_text(text@) == Some(n@),
            None => number_of_text(text@) is None,
        },
{
    match <serde_json::Number as std::str::FromStr>::from_str(text) {
        Ok(n) => Some(n.to_string()),
        Err(_) => None,
    }
}

/// The text of a decimal digit.
fn digit_text(d: u64) -> (r: &'static str)
    requires
        d < 10,
    ensures
        r@ == seq![digit(d as nat)],
{
    proof {
        reveal_strlit("0");
        reveal_strlit("1");
        reveal_strlit("2");
        reveal_strlit("3");
        reveal_strlit("4");
        reveal_strlit("5");
        reveal_strlit("6");
        reveal_strlit("7");
        reveal_strlit("8");
        reveal_strlit("9");
        assert("0"@ =~= seq!['0']);
        assert("1"@ =~= seq!['1']);
        assert("2"@ =~= seq!['2']);
        assert("3"@ =~= seq!['3']);
        assert("4"@ =~= seq!['4']);
        assert("5"@ =~= seq!['5']);
        assert("6"@ =~= seq!['6']);
        assert("7"@ =~= seq!['7']);
        assert("8"@ =~= seq!['8']);
        assert("9"@ =~= seq!['9']);
    }
    if d == 0 {
        "0"
    } else if d == 1 {
        "1"
    } else if d == 2 {
        "2"
    } else if d == 3 {
        "3"
    } else if d == 4 {
        "4"
    } else if d == 5 {
        "5"
    } else if d == 6 {
        "6"
    } else if d == 7 {
        "7"
    } else if d == 8 {
        "8"
    } else {
        "9"
    }
}

/// A number in decimal notation.
fn digits_text(n: u64) -> (r: String)
    ensures
        r@ == digits(n as nat),
{
    let mut rest: u64 = n;
    let mut tail = String::new();
    proof {
        assert(tail@ =~= Seq::<char>::empty());
        assert(digits(rest as nat) + tail@ =~= digits(n as nat));
    }
    while rest >= 10
        invariant
            digits(n as nat) == digits(rest as nat) + tail@,
        decreases rest,
    {
        let last = crate::text::concat(digit_text(rest % 10), tail.as_str());
        proof {
            let m = rest as nat;
            assert(digits(m) == digits(m / 10).push(digit(m % 10)));
            assert(digits(m / 10).push(digit(m % 10)) + tail@ =~= digits(m / 10) + (seq![digit(m % 10)]
                + tail@));
        }
        tail = last;
        rest = rest / 10;
    }
    crate::text::concat(digit_text(rest), tail.as_str())
}

/// An integer as a JSON number: in decimal notation, as `serde_json`
/// prints it.
pub fn integer_number(i: i64) -> (r: String)
    ensures
        r@ == decimal(i as int),
{
    if i < 0 {
        // the magnitude of the least integer does not fit the signed type
        let magnitude: u64 = ((-(i + 1)) as u64) + 1;
        proof {
            reveal_strlit("-");
            assert("-"@ =~= seq!['-']);
            assert(magnitude as int == -(i as int));
        }
        crate::text::concat("-", digits_text(magnitude).as_str())
    } else {
        digits_text(i as u64)
    }
}

/// The text under which `serde_json` prints a value.
pub uninterp spec fn json_text(v: JsonView) -> Seq<char>;

/// `serde_json::Value`'s `to_string`: a value as compact JSON text.
#[verifier::external_body]
pub(crate) fn print_json(j: &Json) -> (r: String)
    ensures
        r@ == json_text(j@),
{
    to_serde(j).to_string()
}

impl View for Json {
    type V = JsonView;

    open spec fn view(&self) -> JsonView {
        json_view(*self)
    }
}

/// The views of a list of values, item by item.
pub open spec fn json_seq_view(items: Seq<Json>) -> Seq<JsonView> {
    Seq::new(items.len(), |i: int| items[i]@)
}

/// The views of a list of named values, item by item.
pub open spec fn json_members_view(members: Seq<(String, Json)>) -> Seq<(Seq<char>, JsonView)> {
    Seq::new(members.len(), |i: int| (members[i].0@, members[i].1@))
}

impl Json {
    /// The value as compact JSON text.
    pub fn to_text(&self) -> (r: String)
        ensures
            r@ == json_text(self@),
    {
        print_json(self)
    }

    /// The value as the text of an environment variable: a string as it
    /// stands, any other value as JSON text.
    pub fn to_env_text(&self) -> (r: String)
        ensures
            r@ == match self@ {
                JsonView::String(s) => s,
                other => json_text(other),
            },
    {
        match self {
            Json::String(s) => s.clone(),
            _ => print_json(self),
        }
    }

    /// The view of an array is the sequence of its items' views.
    pub proof fn lemma_array_view(items: Vec<Json>)
        ensures
            Json::Array(items)@ == JsonView::Array(json_seq_view(items@)),
    {
        assert(Json::Array(items)@->Array_0 =~= json_seq_view(items@));
    }

    /// The view of an object is the sequence of its members' views.
    pub proof fn lemma_object_view(members: Vec<(String, Json)>)
        ensures
            Json::Object(members)@ == JsonView::Object(json_members_view(members@)),
    {
        assert(Json::Object(members)@->Object_0 =~= json_members_view(members@));
    }

    pub fn is_null(&self) -> (r: bool)
        ensures
            r == (self@ is Null),
    {
        matches!(self, Json::Null)
    }

    pub fn is_string(&self) -> (r: bool)
        ensures
            r == (self@ is String),
    {
        matches!(self, Json::String(_))
    }

    pub fn is_number(&self) -> (r: bool)
        ensures
            r == (self@ is Number),
    {
        matches!(self, Json::Number(_))
    }

    pub fn is_boolean(&self) -> (r: bool)
        ensures
            r == (self@ is Bool),
    {
        matches!(self, Json::Bool(_))
    }

    /// The text of a string value.
    pub fn as_str(&self) -> (r: Option<&str>)
        ensures
            match r {
                Some(s) => self@ == JsonView::String(s@),
                None => !(self@ is String),
            },
    {
        match self {
            Json::String(s) => Some(s.as_str()),
            _ => None,
        }
    }

    /// The items of an array value.
    pub fn as_array(&self) -> (r: Option<&Vec<Json>>)
        ensures
            match r {
                Some(items) => *self == Json::Array(*items) && self@ == JsonView::Array(
                    json_seq_view(items@),
                ),
                None => !(self@ is Array),
            },
    {
        match self {
            Json::Array(items) => {
                proof {
                    Json::lemma_array_view(*items);
                }
                Some(items)
            },
            _ => None,
        }
    }

    /// Structural equality.
    pub fn equals(&self, other: &Json) -> (r: bool)
        ensures
            r == (self@ == other@),
        decreases self,
    {
        match self {
            Json::Null => matches!(other, Json::Null),
            Json::Bool(a) => match other {
                Json::Bool(b) => *a == *b,
                _ => false,
            },
            Json::Number(a) => match other {
                Json::Number(b) => *a == *b,
                _ => false,
            },
            Json::String(a) => match other {
                Json::String(b) => *a == *b,
                _ => false,
            },
            Json::Array(a) => match other {
                Json::Array(b) => {
                    proof {
                        Json::lemma_array_view(*a);
                        Json::lemma_array_view(*b);
                    }
                    if a.len() != b.len() {
                        assert(json_seq_view(a@).len() != json_seq_view(b@).len());
                        return false;
                    }
                    let mut i: usize = 0;
                    while i < a.len()
                        invariant
                            i <= a.len(),
                            a.len() == b.len(),
                            *self == Json::Array(*a),
                            self@ == JsonView::Array(json_seq_view(a@)),
                            other@ == JsonView::Array(json_seq_view(b@)),
                            forall|j: int| 0 <= j < i ==> a[j]@ == b[j]@,
                        decreases a.len() - i,
                    {
                        if !a[i].equals(&b[i]) {
                            assert(json_seq_view(a@)[i as int] != json_seq_view(b@)[i as int]);
                            return false;
                        }
                        i += 1;
                    }
                    assert(json_seq_view(a@) =~= json_seq_view(b@));
                    true
                },
                _ => false,
            },
            Json::Object(a) => match other {
                Json::Object(b) => {
                    proof {
                        Json::lemma_object_view(*a);
                        Json::lemma_object_view(*b);
                    }
                    if a.len() != b.len() {
                        assert(json_members_view(a@).len() != json_members_view(b@).len());
                        return false;
                    }
                    let mut i: usize = 0;
                    while i < a.len()
                        invariant
                            i <= a.len(),
                            a.len() == b.len(),
                            *self == Json::Object(*a),
                            self@ == JsonView::Object(json_members_view(a@)),
                            other@ == JsonView::Object(json_members_view(b@)),
                            forall|j: int| 0 <= j < i ==> a[j].0@ == b[j].0@ && a[j].1@ == b[j].1@,
                        decreases a.len() - i,
                    {
                        if !(a[i].0 == b[i].0) || !a[i].1.equals(&b[i].1) {
                            assert(json_members_view(a@)[i as int] != json_members_view(b@)[i as int]);
                            return false;
                        }
                        i += 1;
                    }
                    assert(json_members_view(a@) =~= json_members_view(b@));
                    true
                },
                _ => false,
            },
        }
    }

    /// A copy with the same value.
    pub fn duplicate(&self) -> (r: Json)
        ensures
            r@ == self@,
        decreases self,
    {
        match self {
            Json::Null => Json::Null,
            Json::Bool(b) => Json::Bool(*b),
            Json::Number(n) => Json::Number(n.clone()),
            Json::String(s) => Json::String(s.clone()),
            Json::Array(items) => {
                let mut out: Vec<Json> = Vec::new();
                let mut i: usize = 0;
                while i < items.len()
                    invariant
                        i <= items.len(),
                        *self == Json::Array(*items),
                        out.len() == i,
                        forall|j: int| 0 <= j < i ==> out[j]@ == items[j]@,
                    decreases items.len() - i,
                {
                    assert(self->Array_0 == *items);
                    let item = items[i].duplicate();
                    out.push(item);
                    i += 1;
                }
                proof {
                    Json::lemma_array_view(*items);
                    Json::lemma_array_view(out);
                    assert(json_seq_view(out@) =~= json_seq_view(items@));
                }
                Json::Array(out)
            },
            Json::Object(members) => {
                let mut out: Vec<(String, Json)> = Vec::new();
                let mut i: usize = 0;
                while i < members.len()
                    invariant
                        i <= members.len(),
                        *self == Json::Object(*members),
                        out.len() == i,
                        forall|j: int|
                            0 <= j < i ==> out[j].0@ == members[j].0@ && out[j].1@ == members[j].1@,
                    decreases members.len() - i,
                {
                    assert(self->Object_0 == *members);
                    let value = members[i].1.duplicate();
                    out.push((members[i].0.clone(), value));
                    i += 1;
                }
                proof {
                    Json::lemma_object_view(*members);
                    Json::lemma_object_view(out);
                    assert(json_members_view(out@) =~= json_members_view(members@));
                }
                Json::Object(out)
            },
        }
    }
}

} // verus!
