//! How log records become tracing events, and how trace headers join those of a request.

use crate::logger::{LogLevel, LogRecord};
use vstd::prelude::*;

verus! {

/// The levels of tracing events.
#[derive(Clone, Copy, Debug, PartialEq, Eq, Structural)]
pub enum EventLevel {
    Trace,
    Debug,
    Info,
    Warn,
    Error,
}

impl EventLevel {
    /// The level of the event for a record of a level.
    pub open spec fn of(level: LogLevel) -> EventLevel {
        match level {
            LogLevel::Gossip => EventLevel::Trace,
            LogLevel::Trace => EventLevel::Trace,
            LogLevel::Debug => EventLevel::Debug,
            LogLevel::Info => EventLevel::Info,
            LogLevel::Warn => EventLevel::Warn,
            LogLevel::Error => EventLevel::Error,
        }
    }
}

/// A tracing event.
#[derive(Debug, PartialEq, Eq)]
pub struct TracingEvent {
    pub level: EventLevel,
    pub target: String,
    pub module: String,
    pub line: u32,
    pub message: String,
}

/// Adapter that bridges the logger to the `tracing` ecosystem.
///
/// This allows log records to be emitted as tracing events.
#[derive(Clone, Copy, Debug, PartialEq, Eq)]
pub struct TracingLogWriter {}

impl TracingLogWriter {
    /// The event for a record.
    pub fn log(&self, record: LogRecord) -> (event: TracingEvent)
        ensures
            event.level == EventLevel::of(record.level),
            event.target@ == "ldk_node"@,
            event.module == record.module,
            event.line == record.line,
            event.message == record.args,
    {
        let level = match record.level {
            LogLevel::Gossip => EventLevel::Trace,
            LogLevel::Trace => EventLevel::Trace,
            LogLevel::Debug => EventLevel::Debug,
            LogLevel::Info => EventLevel::Info,
            LogLevel::Warn => EventLevel::Warn,
            LogLevel::Error => EventLevel::Error,
        };
        TracingEvent {
            level,
            target: "ldk_node".to_owned(),
            module: record.module,
            line: record.line,
            message: record.args,
        }
    }
}

/// Whether a header of this name is among the pairs.
pub open spec fn names(pairs: Seq<(String, String)>, name: Seq<char>) -> bool {
    exists|i: int| 0 <= i < pairs.len() && #[trigger] pairs[i].0@ == name
}

/// The headers that the pairs of name and value stand for, where no name occurs twice.
pub open spec fn headers_of(pairs: Seq<(String, String)>) -> Map<Seq<char>, Seq<char>> {
    Map::new(
        |name: Seq<char>| names(pairs, name),
        |name: Seq<char>|
            pairs[choose|i: int| 0 <= i < pairs.len() && #[trigger] pairs[i].0@ == name].1@,
    )
}

/// The headers with the pairs set one after the other.
pub open spec fn overlaid(
    headers: Map<Seq<char>, Seq<char>>,
    pairs: Seq<(String, String)>,
) -> Map<Seq<char>, Seq<char>>
    decreases pairs.len(),
{
    if pairs.len() == 0 {
        headers
    } else {
        overlaid(headers, pairs.drop_last()).insert(pairs.last().0@, pairs.last().1@)
    }
}

/// The headers of a request, into which others can be injected.
#[derive(Debug)]
pub struct HeaderInjector {
    pairs: Vec<(String, String)>,
}

impl View for HeaderInjector {
    type V = Map<Seq<char>, Seq<char>>;

    closed spec fn view(&self) -> Map<Seq<char>, Seq<char>> {
        headers_of(self.pairs@)
    }
}

impl HeaderInjector {
    #[verifier::type_invariant]
    spec fn no_name_twice(self) -> bool {
        forall|i: int, j: int|
            0 <= i < j < self.pairs@.len() ==> #[trigger] self.pairs@[i].0@
                != #[trigger] self.pairs@[j].0@
    }

    /// No headers.
    pub fn new() -> (headers: HeaderInjector)
        ensures
            headers@ == Map::<Seq<char>, Seq<char>>::empty(),
    {
        let headers = HeaderInjector { pairs: Vec::new() };
        assert(headers@ =~= Map::<Seq<char>, Seq<char>>::empty());
        headers
    }

    /// Sets a header, in place of one of the same name.
    pub fn set(&mut self, key: &str, value: String)
        ensures
            final(self)@ == old(self)@.insert(key@, value@),
    {
        proof {
            use_type_invariant(&*self);
        }
        let ghost before = self.pairs@;
        let name: String = key.to_owned();
        let mut i: usize = 0;
        while i < self.pairs.len()
            invariant
                i <= self.pairs@.len(),
                name@ == key@,
                self.pairs@ == before,
                forall|j: int| 0 <= j < i ==> #[trigger] before[j].0@ != key@,
            ensures
                i <= self.pairs@.len(),
                self.pairs@ == before,
                i < self.pairs@.len() ==> self.pairs@[i as int].0@ == key@,
                i == self.pairs@.len() ==> !names(before, key@),
            decreases self.pairs@.len() - i,
        {
            if self.pairs[i].0 == name {
                break ;
            }
            i = i + 1;
        }
        let mut pairs = Vec::new();
        std::mem::swap(&mut pairs, &mut self.pairs);
        let ghost at = i as int;
        if i < pairs.len() {
            pairs.set(i, (name, value));
        } else {
            pairs.push((name, value));
        }
        self.pairs = pairs;
        proof {
            let after = self.pairs@;
            assert forall|k: Seq<char>| names(after, k) == (k == key@ || names(before, k)) by {
                assert(after[at].0@ == key@);
                if names(before, k) {
                    let j = choose|j: int| 0 <= j < before.len() && #[trigger] before[j].0@ == k;
                    assert(after[j].0@ == k);
                }
                if names(after, k) {
                    let j = choose|j: int| 0 <= j < after.len() && #[trigger] after[j].0@ == k;
                    if j != at {
                        assert(before[j].0@ == k);
                    }
                }
            }
            assert forall|k: Seq<char>| names(after, k) implies headers_of(after)[k] == headers_of(
                before,
            ).insert(key@, value@)[k] by {
                let j = choose|j: int| 0 <= j < after.len() && #[trigger] after[j].0@ == k;
                if k == key@ {
                    assert(after[at].0@ == key@);
                    assert(j == at);
                } else {
                    let m = choose|m: int| 0 <= m < before.len() && #[trigger] before[m].0@ == k;
                    assert(before[j].0@ == k);
                    assert(m == j);
                }
            }
            assert(self@ =~= old(self)@.insert(key@, value@));
        }
    }

    /// The value of the header of a name.
    pub fn get(&self, key: &str) -> (value: Option<&String>)
        ensures
            match value {
                Some(v) => self@.contains_key(key@) && v@ == self@[key@],
                None => !self@.contains_key(key@),
            },
    {
        proof {
            use_type_invariant(self);
        }
        let name: String = key.to_owned();
        let mut i: usize = 0;
        while i < self.pairs.len()
            invariant
                i <= self.pairs@.len(),
                name@ == key@,
                self.no_name_twice(),
                forall|j: int| 0 <= j < i ==> #[trigger] self.pairs@[j].0@ != key@,
            decreases self.pairs@.len() - i,
        {
            if self.pairs[i].0 == name {
                assert(self.pairs@[i as int].0@ == key@);
                return Some(&self.pairs[i].1);
            }
            i = i + 1;
        }
        None
    }

    /// The headers as pairs of name and value, no name twice.
    pub fn into_pairs(self) -> (pairs: Vec<(String, String)>)
        ensures
            headers_of(pairs@) == self@,
            forall|i: int, j: int|
                0 <= i < j < pairs@.len() ==> #[trigger] pairs@[i].0@ != #[trigger] pairs@[j].0@,
    {
        proof {
            use_type_invariant(&self);
        }
        self.pairs
    }
}

/// The headers of a request: those that are due without tracing, with the pairs of the trace
/// context injected into them. Where there are none to be had, that is what is returned.
pub fn get_headers<E>(
    inner: Result<HeaderInjector, E>,
    context: Vec<(String, String)>,
) -> (headers: Result<HeaderInjector, E>)
    ensures
        match inner {
            Ok(h) => headers matches Ok(r) && r@ == overlaid(h@, context@),
            Err(e) => headers == Err::<HeaderInjector, E>(e),
        },
{
    let mut headers = match inner {
        Ok(headers) => headers,
        Err(e) => {
            return Err(e);
        },
    };
    let mut i: usize = 0;
    while i < context.len()
        invariant
            i <= context@.len(),
            inner is Ok,
            headers@ == overlaid(inner->Ok_0@, context@.take(i as int)),
        decreases context@.len() - i,
    {
        assert(context@.take(i + 1).drop_last() =~= context@.take(i as int));
        headers.set(context[i].0.as_str(), context[i].1.clone());
        i = i + 1;
    }
    assert(context@.take(i as int) =~= context@);
    Ok(headers)
}

/// Injecting a trace context keeps every header that it does not name, and the last value that
/// it gives to a name is the one that counts.
pub proof fn law_injection(headers: Map<Seq<char>, Seq<char>>, pairs: Seq<(String, String)>)
    ensures
        forall|k: Seq<char>| #[trigger]
            overlaid(headers, pairs).contains_key(k) <==> headers.contains_key(k) || names(
                pairs,
                k,
            ),
        forall|k: Seq<char>|
            headers.contains_key(k) && !names(pairs, k) ==> #[trigger] overlaid(headers, pairs)[k]
                == headers[k],
        forall|i: int|
            0 <= i < pairs.len() && (forall|j: int|
                i < j < pairs.len() ==> #[trigger] pairs[j].0@ != pairs[i].0@) ==> overlaid(
                headers,
                pairs,
            )[#[trigger] pairs[i].0@] == pairs[i].1@,
    decreases pairs.len(),
{
    if pairs.len() > 0 {
        let init = pairs.drop_last();
        law_injection(headers, init);
        assert forall|k: Seq<char>|
            #![trigger names(pairs, k)]
            #![trigger overlaid(headers, pairs).contains_key(k)]
            #![trigger overlaid(headers, pairs)[k]]
            names(pairs, k) == (names(init, k) || k == pairs.last().0@) by {
            if names(init, k) {
                let j = choose|j: int| 0 <= j < init.len() && #[trigger] init[j].0@ == k;
                assert(pairs[j].0@ == k);
            }
            if names(pairs, k) {
                let j = choose|j: int| 0 <= j < pairs.len() && #[trigger] pairs[j].0@ == k;
                if j < init.len() {
                    assert(init[j].0@ == k);
                }
            }
            assert(pairs[pairs.len() - 1].0@ == pairs.last().0@);
        }
        let inner = overlaid(headers, init);
        assert forall|k: Seq<char>| #[trigger]
            overlaid(headers, pairs).contains_key(k) == (headers.contains_key(k) || names(
                pairs,
                k,
            )) by {
            assert(inner.contains_key(k) == (headers.contains_key(k) || names(init, k)));
        }
        assert forall|k: Seq<char>|
            headers.contains_key(k) && !names(pairs, k) implies #[trigger] overlaid(
            headers,
            pairs,
        )[k] == headers[k] by {
            assert(inner[k] == headers[k]);
        }
        assert forall|i: int|
            0 <= i < pairs.len() && (forall|j: int|
                i < j < pairs.len() ==> #[trigger] pairs[j].0@ != pairs[i].0@) implies overlaid(
            headers,
            pairs,
        )[#[trigger] pairs[i].0@] == pairs[i].1@ by {
            if i < init.len() {
                assert(pairs[pairs.len() - 1].0@ != pairs[i].0@);
                assert forall|j: int| i < j < init.len() implies #[trigger] init[j].0@
                    != init[i].0@ by {
                    assert(pairs[j].0@ != pairs[i].0@);
                }
                assert(init[i].0@ == pairs[i].0@);
            }
        }
    }
}

/// Pairs of which no name occurs twice stand for headers in which each name has the value beside
/// it, and no other name has one.
pub proof fn law_headers_of_pairs(pairs: Seq<(String, String)>)
    requires
        forall|i: int, j: int|
            0 <= i < j < pairs.len() ==> (#[trigger] pairs[i]).0@ != (#[trigger] pairs[j]).0@,
    ensures
        forall|i: int|
            0 <= i < pairs.len() ==> {
                &&& headers_of(pairs).contains_key((#[trigger] pairs[i]).0@)
                &&& headers_of(pairs)[pairs[i].0@] == pairs[i].1@
            },
        forall|name: Seq<char>| #[trigger]
            headers_of(pairs).contains_key(name) ==> exists|i: int|
                0 <= i < pairs.len() && (#[trigger] pairs[i]).0@ == name,
        forall|name: Seq<char>| #[trigger]
            names(pairs, name) <==> exists|i: int|
                0 <= i < pairs.len() && (#[trigger] pairs[i]).0@ == name,
{
    assert forall|i: int| 0 <= i < pairs.len() implies {
        &&& headers_of(pairs).contains_key((#[trigger] pairs[i]).0@)
        &&& headers_of(pairs)[pairs[i].0@] == pairs[i].1@
    } by {
        let name = pairs[i].0@;
        assert(names(pairs, name));
        let k = choose|k: int| 0 <= k < pairs.len() && #[trigger] pairs[k].0@ == name;
        if k < i {
            assert(pairs[k].0@ != pairs[i].0@);
        }
        if i < k {
            assert(pairs[i].0@ != pairs[k].0@);
        }
    }
}

/// The level of an event is that of the record, gossip being the most verbose there is.
pub proof fn law_event_levels()
    ensures
        EventLevel::of(LogLevel::Gossip) == EventLevel::Trace,
        EventLevel::of(LogLevel::Trace) == EventLevel::Trace,
        EventLevel::of(LogLevel::Debug) == EventLevel::Debug,
        EventLevel::of(LogLevel::Info) == EventLevel::Info,
        EventLevel::of(LogLevel::Warn) == EventLevel::Warn,
        EventLevel::of(LogLevel::Error) == EventLevel::Error,
{
}

} // verus!
