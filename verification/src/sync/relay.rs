//! Events the running game relays through Studio, handed on to the hook
//! scripts as an event name and its values.
use vstd::prelude::*;
use crate::json::{assoc_get, Json, JsonV};
use crate::patch::opt_view;
use crate::text::{decimal, decimal_of, same_str};

verus! {

/// The most values of one event handed on.
pub const LIMIT: usize = 256;

/// A batch of relayed events.
#[derive(Debug)]
pub struct Batch {
    pub events: Vec<Relayed>,
}

/// One relayed event.
#[derive(Debug)]
pub struct Relayed {
    pub kind: String,
    pub session: Option<String>,
    pub game_session: Option<String>,
    pub context: Option<String>,
    pub message: Option<String>,
    pub level: Option<String>,
    pub args: Option<Args>,
}

/// The values an event carries: `n` of them, numbered from 1 in `items`.
#[derive(Debug)]
pub struct Args {
    pub n: usize,
    pub items: Json,
}

/// A text value, or `null` where there is none.
pub open spec fn text_value(o: Option<Seq<char>>) -> JsonV {
    match o {
        Some(s) => JsonV::Text(s),
        None => JsonV::Null,
    }
}

/// A text value, or `null` where there is none.
pub fn text(value: &Option<String>) -> (r: Json)
    ensures
        r@ == text_value(opt_view(*value)),
{
    match value {
        Some(s) => Json::Text(s.clone()),
        None => Json::Null,
    }
}

/// The value numbered `index` (from 1): the entry under its number in an
/// object, the item at that place in an array, `null` otherwise.
pub open spec fn item_spec(items: JsonV, index: nat) -> JsonV {
    match items {
        JsonV::Object(m) => match assoc_get(m, decimal(index)) {
            Some(v) => v,
            None => JsonV::Null,
        },
        JsonV::Array(list) => if 1 <= index <= list.len() {
            list[index - 1]
        } else {
            JsonV::Null
        },
        _ => JsonV::Null,
    }
}

/// The value numbered `index` (from 1).
pub fn item(items: &Json, index: usize) -> (r: Json)
    requires
        index >= 1,
    ensures
        r@ == item_spec(items@, index as nat),
{
    match items {
        Json::Object(map) => {
            let key = decimal_of(index);
            match map.get(key.as_str()) {
                Some(v) => v.clone(),
                None => Json::Null,
            }
        },
        Json::Array(list) => {
            if index - 1 < list.len() {
                list[index - 1].clone()
            } else {
                Json::Null
            }
        },
        _ => Json::Null,
    }
}

/// The values of an event, at most `LIMIT` of them.
pub open spec fn tuple_spec(args: Option<(nat, JsonV)>) -> Seq<JsonV> {
    match args {
        None => Seq::empty(),
        Some((n, items)) => Seq::new(
            if n < LIMIT {
                n
            } else {
                LIMIT as nat
            },
            |i: int| item_spec(items, (i + 1) as nat),
        ),
    }
}

/// An event never hands on more than `LIMIT` values of its own.
pub proof fn law_tuple_capped(args: Option<(nat, JsonV)>)
    ensures
        tuple_spec(args).len() <= LIMIT,
{
}

/// The count and items of an event's values.
pub open spec fn args_view(a: Option<Args>) -> Option<(nat, JsonV)> {
    match a {
        Some(x) => Some((x.n as nat, x.items@)),
        None => None,
    }
}

/// The values of an event, at most `LIMIT` of them.
pub fn tuple(args: &Option<Args>) -> (r: Vec<Json>)
    ensures
        crate::json::json_views(r@) == tuple_spec(args_view(*args)),
{
    let a = match args {
        Some(a) => a,
        None => {
            let r = Vec::new();
            assert(crate::json::json_views(r@) =~= Seq::<JsonV>::empty());
            return r;
        },
    };
    let count = if a.n < LIMIT {
        a.n
    } else {
        LIMIT
    };
    let mut out: Vec<Json> = Vec::new();
    let mut i: usize = 0;
    while i < count
        invariant
            i <= count,
            count <= LIMIT,
            out@.len() == i,
            forall|k: int| 0 <= k < i ==> (#[trigger] out@[k])@ == item_spec(a.items@, (k + 1) as nat),
        decreases count - i,
    {
        out.push(item(&a.items, i + 1));
        i = i + 1;
    }
    assert(crate::json::json_views(out@) =~= tuple_spec(args_view(*args)));
    out
}

/// A relayed event with its text as character sequences.
pub struct RelayedV {
    pub kind: Seq<char>,
    pub session: Option<Seq<char>>,
    pub game_session: Option<Seq<char>>,
    pub context: Option<Seq<char>>,
    pub message: Option<Seq<char>>,
    pub level: Option<Seq<char>>,
    pub args: Option<(nat, JsonV)>,
}

impl View for Relayed {
    type V = RelayedV;

    open spec fn view(&self) -> RelayedV {
        RelayedV {
            kind: self.kind@,
            session: opt_view(self.session),
            game_session: opt_view(self.game_session),
            context: opt_view(self.context),
            message: opt_view(self.message),
            level: opt_view(self.level),
            args: args_view(self.args),
        }
    }
}

/// The hook event a relayed event is, with its values: the session for a
/// plain event, then the game session and context for game events, then
/// the message and level for a log; events and game events add their own
/// values. Unknown kinds are nothing.
pub open spec fn values_spec(e: RelayedV) -> Option<(Seq<char>, Seq<JsonV>)> {
    let session = text_value(e.session);
    let game = text_value(e.game_session);
    let context = text_value(e.context);
    if e.kind == "event"@ {
        Some(("event"@, seq![session] + tuple_spec(e.args)))
    } else if e.kind == "gameEvent"@ {
        Some(("gameEvent"@, seq![session, game, context] + tuple_spec(e.args)))
    } else if e.kind == "log"@ {
        Some(("log"@, seq![session, game, context, text_value(e.message), text_value(e.level)]))
    } else if e.kind == "gameStart"@ {
        Some(("gameStart"@, seq![session, game]))
    } else if e.kind == "gameEnd"@ {
        Some(("gameEnd"@, seq![session, game]))
    } else if e.kind == "connect"@ {
        Some(("connect"@, seq![session]))
    } else {
        None
    }
}

/// The hook event a relayed event is, with its values (see `values_spec`).
pub fn values(entry: &Relayed) -> (r: Option<(String, Vec<Json>)>)
    ensures
        match r {
            Some((name, vals)) => values_spec(entry@) == Some((name@, crate::json::json_views(vals@))),
            None => values_spec(entry@) is None,
        },
{
    let kind = entry.kind.as_str();
    let mut out: Vec<Json> = Vec::new();
    out.push(text(&entry.session));
    let name = if same_str(kind, "event") {
        "event"
    } else if same_str(kind, "gameEvent") {
        out.push(text(&entry.game_session));
        out.push(text(&entry.context));
        "gameEvent"
    } else if same_str(kind, "log") {
        out.push(text(&entry.game_session));
        out.push(text(&entry.context));
        out.push(text(&entry.message));
        out.push(text(&entry.level));
        "log"
    } else if same_str(kind, "gameStart") {
        out.push(text(&entry.game_session));
        "gameStart"
    } else if same_str(kind, "gameEnd") {
        out.push(text(&entry.game_session));
        "gameEnd"
    } else if same_str(kind, "connect") {
        "connect"
    } else {
        return None;
    };
    let ghost head = crate::json::json_views(out@);
    if same_str(name, "event") || same_str(name, "gameEvent") {
        let extra = tuple(&entry.args);
        let mut i: usize = 0;
        while i < extra.len()
            invariant
                i <= extra@.len(),
                crate::json::json_views(out@) == head + crate::json::json_views(extra@).take(i as int),
            decreases extra@.len() - i,
        {
            let ghost prev = crate::json::json_views(out@);
            out.push(extra[i].clone());
            assert(crate::json::json_views(out@) =~= prev.push(extra@[i as int]@));
            assert(crate::json::json_views(extra@).take(i + 1) =~= crate::json::json_views(extra@).take(
                i as int,
            ).push(extra@[i as int]@));
            i = i + 1;
        }
        assert(crate::json::json_views(extra@).take(extra@.len() as int) =~= crate::json::json_views(
            extra@,
        ));
    }
    proof {
        reveal_strlit("event");
        reveal_strlit("gameEvent");
        reveal_strlit("log");
        reveal_strlit("gameStart");
        reveal_strlit("gameEnd");
        reveal_strlit("connect");
    }
    let ghost expected = values_spec(entry@)->0;
    assert(crate::json::json_views(out@) =~= expected.1);
    Some((String::from_str(name), out))
}

/// The hook events a batch hands on, in order; unknown kinds left out.
pub open spec fn deliveries_spec(events: Seq<RelayedV>) -> Seq<(Seq<char>, Seq<JsonV>)>
    decreases events.len(),
{
    if events.len() == 0 {
        Seq::empty()
    } else {
        let r = deliveries_spec(events.drop_last());
        match values_spec(events.last()) {
            Some(v) => r.push(v),
            None => r,
        }
    }
}

/// The hook events a batch hands on (see `deliveries_spec`).
pub fn deliveries(batch: &Batch) -> (r: Vec<(String, Vec<Json>)>)
    ensures
        r@.map_values(|e: (String, Vec<Json>)| (e.0@, crate::json::json_views(e.1@)))
            == deliveries_spec(batch.events@.map_values(|e: Relayed| e@)),
{
    let ghost es = batch.events@.map_values(|e: Relayed| e@);
    let mut out: Vec<(String, Vec<Json>)> = Vec::new();
    let mut i: usize = 0;
    while i < batch.events.len()
        invariant
            i <= batch.events@.len(),
            es == batch.events@.map_values(|e: Relayed| e@),
            out@.map_values(|e: (String, Vec<Json>)| (e.0@, crate::json::json_views(e.1@)))
                == deliveries_spec(es.take(i as int)),
        decreases batch.events@.len() - i,
    {
        assert(es.take(i + 1).drop_last() =~= es.take(i as int));
        assert(es.take(i + 1).last() == batch.events@[i as int]@);
        let ghost prev = out@.map_values(|e: (String, Vec<Json>)| (e.0@, crate::json::json_views(e.1@)));
        if let Some(v) = values(&batch.events[i]) {
            let ghost ev = (v.0@, crate::json::json_views(v.1@));
            out.push(v);
            assert(out@.map_values(|e: (String, Vec<Json>)| (e.0@, crate::json::json_views(e.1@)))
                =~= prev.push(ev));
        }
        i = i + 1;
    }
    assert(es.take(i as int) =~= es);
    out
}

} // verus!
