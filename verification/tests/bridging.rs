use caribou::bridge::crossing::{
    begin_call, begin_get, begin_invoke, begin_sequence, begin_set, direct_target, finish, refuse,
    typed_plan, Ask, Came, Crossing, Sequence, TypedPlan,
};
use caribou::bridge::pending::PendingTable;
use caribou::bridge::plan::{length_of, Dispatchers, Signature};
use caribou::bridge::runs::{CallSite, Entry, Runs};
use caribou::bridge::settle::{settle_for, Answer, Outcome};
use caribou::bridge::typed::{
    shape, Raw, Slot, HBOOL, HBYTES, HDYN, HF64, HI32, HVOID,
};
use caribou::error::{Error, Str};
use caribou::heap::handles::HandleTable;
use caribou::object::{ErrorBody, Objects, TraceFrame};
use caribou::protocol::{reply, Callable, Fault, REPLY_OK};
use caribou::sched::task::TaskId;
use caribou::symbol::{Symbol, SymbolTable};
use caribou::value::{ErrorKind, LangId, Value, LANG_CORE};

const LANG_A: LangId = 41;
const LANG_B: LangId = 42;

const SUMS: u32 = 0;
const RAISES: u32 = 1;
const PANICS: u32 = 2;
const RAISES_BARE: u32 = 3;
const MISSING: u32 = 4;

type Code = fn(&[Slot]) -> Raw;

/// The bridge with one adapter behind it: a probe's behaviour by its address,
/// and native code by its number.
struct Bridge {
    objects: Objects,
    table: SymbolTable,
    slots: PendingTable,
    handles: HandleTable,
    dispatchers: Dispatchers,
    probes: Vec<(usize, Option<u32>)>,
    code: Vec<Code>,
    signatures: Vec<Option<Signature>>,
    task: TaskId,
}

impl Bridge {
    fn new() -> Bridge {
        Bridge {
            objects: Objects::new(),
            table: SymbolTable::new(),
            slots: PendingTable::new(),
            handles: HandleTable::new(),
            dispatchers: Dispatchers { table: Vec::new() },
            probes: Vec::new(),
            code: Vec::new(),
            signatures: Vec::new(),
            task: TaskId(0),
        }
    }

    fn probe(&mut self, behaviour: u32) -> Value {
        let v = self.objects.foreign(LANG_A, "Probe");
        self.probes.push((v.object_of().unwrap(), Some(behaviour)));
        v
    }

    fn mute(&mut self) -> Value {
        let v = self.objects.foreign(LANG_A, "Mute");
        self.probes.push((v.object_of().unwrap(), None));
        v
    }

    fn behaviour(&self, p: usize) -> Option<u32> {
        self.probes.iter().find(|(q, _)| *q == p).unwrap().1
    }

    fn set_pending(&mut self, v: Value) {
        let task = self.task;
        self.slots
            .set_pending(&mut self.handles, task, v, &vec![task]);
    }

    fn take_pending(&mut self) -> Option<Value> {
        self.slots.take_pending(&mut self.handles, self.task)
    }

    fn has_pending(&self) -> bool {
        self.slots.has_pending(self.task)
    }

    fn settle(
        &mut self,
        outcome: Outcome,
        segment: LangId,
        name: &str,
        caller: LangId,
    ) -> Result<Value, Value> {
        settle_for(
            &mut self.objects,
            &mut self.slots,
            &mut self.handles,
            self.task,
            outcome,
            segment,
            name,
            caller,
        )
    }

    fn probe_call(&mut self, p: usize, args: &[Value]) -> Answer {
        match self.behaviour(p) {
            Some(SUMS) => Answer::Reply(Ok(Value::Int(
                args.iter().filter_map(|v| v.as_int()).sum(),
            ))),
            Some(RAISES) => {
                let e = Error::new(&mut self.objects, ErrorKind::User, "boom", LANG_A);
                self.set_pending(e);
                Answer::Reply(Err(Fault::Raised))
            }
            Some(RAISES_BARE) => {
                let s = Str::new(&mut self.objects, "bare payload");
                self.set_pending(s);
                Answer::Reply(Err(Fault::Raised))
            }
            Some(PANICS) => Answer::Panic("entry panicked on purpose".to_owned()),
            Some(_) => Answer::Reply(Err(Fault::Missing)),
            None => Answer::Reply(Err(Fault::Unsupported)),
        }
    }

    fn probe_invoke(&mut self, p: usize, name: Symbol, args: &[Value]) -> Answer {
        if self.table.name(name) == "sum" {
            self.probe_call(p, args)
        } else {
            Answer::Reply(Err(Fault::Missing))
        }
    }

    /// What the callee's side does with a crossing.
    fn send(&mut self, crossing: Crossing, args: &[Value]) -> Came {
        match crossing.ask {
            Ask::Call { obj } => Came::Answered(self.probe_call(obj, args)),
            Ask::Typed { func, signature } => {
                self.typed_call(func, signature, crossing.segment, &args.to_vec())
            }
            Ask::Invoke { obj, name, first } => {
                Came::Answered(self.probe_invoke(obj, name, &args[first..]))
            }
            Ask::Read { obj, name } => {
                Came::Answered(Answer::Reply(if self.table.name(name) == "behaviour" {
                    Ok(Value::Int(self.behaviour(obj).unwrap() as i32))
                } else {
                    Err(Fault::Missing)
                }))
            }
            Ask::Write { .. } => Came::Answered(Answer::Reply(Err(Fault::Unsupported))),
            Ask::Len { .. } => Came::Answered(Answer::Reply(Ok(Value::Int(3)))),
            Ask::Index { .. } => Came::Answered(Answer::Reply(Err(Fault::Missing))),
            Ask::SetIndex { .. } => Came::Answered(Answer::Reply(Err(Fault::Unsupported))),
            _ => panic!("no cell and no function of the core's here"),
        }
    }

    fn finish(
        &mut self,
        crossing: Crossing,
        came: Came,
        name: &str,
        caller: LangId,
    ) -> Result<Value, Value> {
        finish(
            &mut self.objects,
            &self.table,
            &mut self.slots,
            &mut self.handles,
            self.task,
            crossing,
            came,
            name,
            caller,
        )
    }

    fn cross(
        &mut self,
        start: Result<Crossing, (ErrorKind, String)>,
        args: &[Value],
        name: &str,
        caller: LangId,
    ) -> Result<Value, Value> {
        match start {
            Err((kind, message)) => refuse(&mut self.objects, kind, message, name, caller),
            Ok(crossing) => {
                let came = self.send(crossing, args);
                self.finish(crossing, came, name, caller)
            }
        }
    }

    fn invoke(
        &mut self,
        obj: Value,
        name: &str,
        args: &[Value],
        caller: LangId,
    ) -> Result<Value, Value> {
        let symbol = self.table.intern(name);
        let start = begin_invoke(&self.objects, &self.table, obj, symbol, 0);
        self.cross(start, args, name, caller)
    }

    fn get(&mut self, obj: Value, name: &str, caller: LangId) -> Result<Value, Value> {
        let symbol = self.table.intern(name);
        let start = begin_get(&self.objects, &self.table, obj, symbol);
        self.cross(start, &[], name, caller)
    }

    fn set(&mut self, obj: Value, name: &str, caller: LangId) -> Result<Value, Value> {
        let symbol = self.table.intern(name);
        let start = begin_set(&self.objects, &self.table, obj, symbol);
        self.cross(start, &[], name, caller)
    }

    fn sequence(&mut self, v: Value, what: Sequence, caller: LangId) -> Result<Value, Value> {
        let start = begin_sequence(&self.objects, v, what);
        self.cross(start, &[], what.name(), caller)
    }

    fn typed_call(&mut self, func: usize, sig: usize, lang: LangId, args: &Vec<Value>) -> Came {
        let dispatch = self.dispatchers.typed_dispatch(lang);
        let signature = self.signatures[sig].as_ref();
        match typed_plan(&self.objects, signature, lang, dispatch, args) {
            TypedPlan::Refuse(kind, message) => Came::Refused(kind, message),
            // The one registered entry answers seven, whatever it is asked.
            TypedPlan::Registered(_) => {
                Came::Answered(Answer::Reply(reply(REPLY_OK, Value::Int(7))))
            }
            TypedPlan::Run(slots, _) => Came::Answered(Answer::Reply(Ok(shape(
                (self.code[func])(&slots),
                signature.unwrap().ret,
            )))),
            TypedPlan::Raise(message) => {
                let e = Error::new(&mut self.objects, ErrorKind::Type, &message, LANG_CORE);
                self.set_pending(e);
                Came::Answered(Answer::Reply(Err(Fault::Raised)))
            }
        }
    }

    fn call_named(
        &mut self,
        callable: Callable,
        args: &[Value],
        caller: LangId,
        name: &str,
    ) -> Result<Value, Value> {
        let start = begin_call(&self.objects, &self.table, callable, &args.to_vec());
        self.cross(start, args, name, caller)
    }

    fn call(
        &mut self,
        callable: Callable,
        args: &[Value],
        caller: LangId,
    ) -> Result<Value, Value> {
        self.call_named(callable, args, caller, "<callable>")
    }

    fn error(&self, v: Value) -> ErrorBody {
        self.objects.error(v).expect("an error")
    }

    fn message(&self, v: Value) -> &str {
        let e = self.error(v);
        Error::message_str(&self.objects, &e)
    }

    fn frames(&self, v: Value) -> Vec<TraceFrame> {
        self.objects
            .trace(self.error(v).trace)
            .map_or(Vec::new(), |f| f.clone())
    }

    fn typed(&mut self, code: Code, sig: Option<Signature>) -> Callable {
        self.code.push(code);
        self.signatures.push(sig);
        Callable::Typed {
            func: self.code.len() - 1,
            signature: self.signatures.len() - 1,
            lang: LANG_CORE,
        }
    }
}

fn signature(args: &[u32], ret: u32) -> Option<Signature> {
    Some(Signature {
        args: args.to_vec(),
        ret,
    })
}

fn number(n: f64) -> Value {
    Value::Number(n.to_bits())
}

fn integer(s: Slot) -> i64 {
    match s {
        Slot::Int(n) => n,
        Slot::Cut(bits) => f64::from_bits(bits) as i32 as i64,
        other => panic!("{other:?}"),
    }
}

fn float(s: Slot) -> f64 {
    match s {
        Slot::Float(bits) => f64::from_bits(bits),
        Slot::Widened(n) => n as f64,
        other => panic!("{other:?}"),
    }
}

#[test]
fn the_pending_slot_holds_one_error_per_task_and_take_clears_it() {
    let mut b = Bridge::new();
    assert!(!b.has_pending());
    assert_eq!(b.take_pending(), None);
    let e = Error::new(&mut b.objects, ErrorKind::User, "first", LANG_A);
    b.set_pending(e);
    assert!(b.has_pending());
    let again = Error::new(&mut b.objects, ErrorKind::User, "second", LANG_A);
    b.set_pending(again);
    assert_eq!(b.take_pending(), Some(again));
    assert!(!b.has_pending());
    assert_eq!(b.take_pending(), None);
}

#[test]
fn a_pending_error_is_rooted_until_it_is_taken() {
    let mut b = Bridge::new();
    let e = Error::new(&mut b.objects, ErrorKind::User, "kept", LANG_A);
    b.set_pending(e);
    assert_eq!(
        b.handles.live_addresses(),
        vec![e.object_of().unwrap() as u64]
    );
    b.task = TaskId(9);
    assert!(!b.has_pending());
    b.task = TaskId(0);
    assert_eq!(b.take_pending(), Some(e));
    assert!(b.handles.live_addresses().is_empty());
}

#[test]
fn a_dynamic_call_returns_the_entrys_value() {
    let mut b = Bridge::new();
    let p = b.probe(SUMS);
    let r = b.call(
        Callable::Dynamic(p),
        &[Value::Int(2), Value::Int(3), Value::Int(5)],
        LANG_B,
    );
    assert_eq!(r, Ok(Value::Int(10)));
    assert!(!b.has_pending());
}

#[test]
fn a_wren_method_invokes_its_signature_on_the_receiver() {
    let mut b = Bridge::new();
    let p = b.probe(SUMS);
    let sum = b.table.intern("sum");
    let nope = b.table.intern("nope(_)");
    let r = b.call(
        Callable::WrenMethod {
            class: Value::Null,
            signature: sum,
            is_static: false,
        },
        &[p, Value::Int(2), Value::Int(3)],
        LANG_B,
    );
    assert_eq!(r, Ok(Value::Int(5)));
    let r = b.call(
        Callable::WrenMethod {
            class: p,
            signature: sum,
            is_static: true,
        },
        &[Value::Int(4), Value::Int(3)],
        LANG_B,
    );
    assert_eq!(r, Ok(Value::Int(7)));
    // No receiver to send to; a member the receiver lacks.
    let err = b
        .call(
            Callable::WrenMethod {
                class: Value::Null,
                signature: sum,
                is_static: false,
            },
            &[],
            LANG_B,
        )
        .unwrap_err();
    assert_eq!(b.error(err).kind, ErrorKind::Type);
    let err = b
        .call_named(
            Callable::WrenMethod {
                class: Value::Null,
                signature: nope,
                is_static: false,
            },
            &[p, Value::Int(1)],
            LANG_B,
            "Probe.nope",
        )
        .unwrap_err();
    assert_eq!(b.error(err).kind, ErrorKind::Runtime);
    assert_eq!(b.objects.text(b.frames(err)[0].name), Some("Probe.nope"));
}

#[test]
fn a_raising_entry_yields_its_error_with_one_frame() {
    let mut b = Bridge::new();
    let p = b.probe(RAISES);
    let err = b
        .call_named(Callable::Dynamic(p), &[], LANG_B, "explode")
        .unwrap_err();
    let e = b.error(err);
    assert_eq!(e.kind, ErrorKind::User);
    assert_eq!(b.message(err), "boom");
    assert_eq!(e.origin, LANG_A);
    let frames = b.frames(err);
    assert_eq!(frames.len(), 1);
    assert_eq!(frames[0].lang, LANG_A);
    assert_eq!(b.objects.text(frames[0].name), Some("explode"));
    assert_eq!(b.objects.text(frames[0].source), None);
    assert_eq!(frames[0].span(), None);
    assert!(!b.has_pending(), "the slot is cleared by the call");
    // Through `call`, the frame names the callable generically.
    let err = b.call(Callable::Dynamic(p), &[], LANG_B).unwrap_err();
    assert_eq!(
        b.objects.text(b.frames(err)[0].name),
        Some("<callable>")
    );
}

#[test]
fn a_non_callable_object_is_a_type_error() {
    let mut b = Bridge::new();
    let mute = b.mute();
    let err = b.call(Callable::Dynamic(mute), &[], LANG_B).unwrap_err();
    assert_eq!(b.error(err).kind, ErrorKind::Type);
    assert_eq!(b.message(err), "a Mute is not callable");
    assert_eq!(b.frames(err).len(), 1);
    assert_eq!(b.frames(err)[0].lang, LANG_A);
    // Non-objects too, with the core as the segment.
    let err = b
        .call(Callable::Dynamic(Value::Int(7)), &[], LANG_B)
        .unwrap_err();
    assert_eq!(b.error(err).kind, ErrorKind::Type);
    assert_eq!(b.message(err), "an int is not callable");
    assert_eq!(b.frames(err)[0].lang, LANG_CORE);
    let err = b
        .call(Callable::Dynamic(Value::Null), &[], LANG_B)
        .unwrap_err();
    assert_eq!(b.message(err), "null is not callable");
    // An entry answering `Missing` is a runtime error.
    let p = b.probe(MISSING);
    let err = b.call(Callable::Dynamic(p), &[], LANG_B).unwrap_err();
    assert_eq!(b.error(err).kind, ErrorKind::Runtime);
}

#[test]
fn a_panicking_entry_becomes_an_internal_error() {
    let mut b = Bridge::new();
    let p = b.probe(PANICS);
    let err = b.call(Callable::Dynamic(p), &[], LANG_B).unwrap_err();
    assert_eq!(b.error(err).kind, ErrorKind::Internal);
    assert_eq!(b.message(err), "entry panicked on purpose");
    assert_eq!(b.frames(err).len(), 1);
}

#[test]
fn an_error_returning_home_is_unwrapped_to_its_native_object() {
    let mut b = Bridge::new();
    let native = Str::new(&mut b.objects, "the original exception");
    let mut make = |b: &mut Bridge| {
        let e = Error::new(&mut b.objects, ErrorKind::User, "wrapped", LANG_A);
        Error::set_native(&mut b.objects, e, native);
        e
    };
    // Raised by LANG_A's entry, back to a LANG_A caller: the native object.
    let e = make(&mut b);
    b.set_pending(e);
    let r = b.settle(Outcome::Raised, LANG_A, "f", LANG_A);
    assert_eq!(r, Err(native));
    // To another caller: the Error itself, native still attached.
    let e = make(&mut b);
    b.set_pending(e);
    let err = b
        .settle(Outcome::Raised, LANG_A, "f", LANG_B)
        .unwrap_err();
    assert_eq!(b.error(err).native, native);
    assert_eq!(b.message(err), "wrapped");
    // An Error without a native payload is never unwrapped.
    let plain = Error::new(&mut b.objects, ErrorKind::User, "plain", LANG_A);
    b.set_pending(plain);
    assert_eq!(
        b.settle(Outcome::Raised, LANG_A, "f", LANG_A),
        Err(plain)
    );
}

#[test]
fn a_bare_pending_value_travels_wrapped_and_unwraps_at_home() {
    let mut b = Bridge::new();
    let p = b.probe(RAISES_BARE);
    let err = b.call(Callable::Dynamic(p), &[], LANG_B).unwrap_err();
    let e = b.error(err);
    assert_eq!(e.kind, ErrorKind::User);
    assert_eq!(e.origin, LANG_A);
    assert_eq!(b.objects.text(e.native), Some("bare payload"));
    let home = b.call(Callable::Dynamic(p), &[], LANG_A).unwrap_err();
    assert_eq!(b.objects.text(home), Some("bare payload"));
}

#[test]
fn invoke_get_and_set_map_faults_the_same_way() {
    let mut b = Bridge::new();
    let v = b.probe(SUMS);
    assert_eq!(
        b.invoke(v, "sum", &[Value::Int(1), Value::Int(2)], LANG_B),
        Ok(Value::Int(3))
    );
    let err = b.invoke(v, "nope", &[], LANG_B).unwrap_err();
    assert_eq!(b.error(err).kind, ErrorKind::Runtime);
    assert_eq!(b.message(err), "a Probe has no member `nope`");
    assert_eq!(b.objects.text(b.frames(err)[0].name), Some("nope"));
    assert_eq!(
        b.get(v, "behaviour", LANG_B),
        Ok(Value::Int(SUMS as i32))
    );
    let err = b.get(v, "nope", LANG_B).unwrap_err();
    assert_eq!(b.error(err).kind, ErrorKind::Runtime);
    let err = b.set(v, "behaviour", LANG_B).unwrap_err();
    assert_eq!(b.error(err).kind, ErrorKind::Type);
    assert_eq!(
        b.message(err),
        "a Probe does not answer write for `behaviour`"
    );
    let err = b.invoke(Value::Null, "x", &[], LANG_B).unwrap_err();
    assert_eq!(b.message(err), "cannot invoke `x` on null");
}

fn scale(s: &[Slot]) -> Raw {
    Raw::Float((integer(s[0]) as f64 * float(s[1])).to_bits())
}

fn mix(s: &[Slot]) -> Raw {
    let (a, flag, b, c) = (float(s[0]), integer(s[1]) != 0, integer(s[2]), float(s[3]));
    Raw::Int((if flag { a + c } else { a - c }) as i64 + b)
}

fn negate(s: &[Slot]) -> Raw {
    Raw::Int(if integer(s[0]) != 0 { 0 } else { 1 })
}

fn identity(s: &[Slot]) -> Raw {
    match s[0] {
        Slot::Dyn(v) => Raw::Dyn(v),
        other => panic!("{other:?}"),
    }
}

fn tally(s: &[Slot]) -> Raw {
    Raw::Int(s.iter().map(|&s| integer(s)).sum())
}

fn touch(_: &[Slot]) -> Raw {
    Raw::Void
}

#[test]
fn typed_calls_go_through_the_core_dispatcher() {
    let mut b = Bridge::new();
    let f = b.typed(scale, signature(&[HI32, HF64], HF64));
    let r = b.call(f, &[Value::Int(3), number(1.5)], LANG_B);
    assert_eq!(r, Ok(number(4.5)));
    // An int where a double is wanted, and a whole number for an int.
    let r = b.call(f, &[number(4.0), Value::Int(2)], LANG_B);
    assert_eq!(r, Ok(number(8.0)));

    let f = b.typed(mix, signature(&[HF64, HBOOL, HI32, HF64], HI32));
    let args = [number(10.0), Value::Bool(true), Value::Int(5), number(2.0)];
    assert_eq!(b.call(f, &args, LANG_B), Ok(Value::Int(17)));
    let args = [number(10.0), Value::Bool(false), Value::Int(5), number(2.0)];
    assert_eq!(b.call(f, &args, LANG_B), Ok(Value::Int(13)));

    let f = b.typed(negate, signature(&[HBOOL], HBOOL));
    assert_eq!(
        b.call(f, &[Value::Bool(false)], LANG_B),
        Ok(Value::Bool(true))
    );

    let f = b.typed(identity, signature(&[HDYN], HDYN));
    let s = Str::new(&mut b.objects, "through");
    assert_eq!(b.call(f, &[s], LANG_B), Ok(s));

    let f = b.typed(tally, signature(&[HI32; 4], HI32));
    let args = [Value::Int(1), Value::Int(2), Value::Int(3), Value::Int(-10)];
    assert_eq!(b.call(f, &args, LANG_B), Ok(Value::Int(-4)));

    let f = b.typed(touch, signature(&[HI32], HVOID));
    assert_eq!(b.call(f, &[Value::Int(99)], LANG_B), Ok(Value::Null));
}

#[test]
fn a_typed_arity_or_kind_mismatch_is_a_type_error() {
    let mut b = Bridge::new();
    let f = b.typed(scale, signature(&[HI32, HF64], HF64));
    let err = b.call(f, &[Value::Int(3)], LANG_B).unwrap_err();
    assert_eq!(b.error(err).kind, ErrorKind::Type);
    assert_eq!(b.message(err), "expected 2 arguments, got 1");
    assert_eq!(b.frames(err).len(), 1);
    assert_eq!(b.frames(err)[0].lang, LANG_CORE);
    // The right count but a value the kind cannot take.
    let err = b
        .call(f, &[Value::Bool(true), number(1.0)], LANG_B)
        .unwrap_err();
    assert_eq!(b.error(err).kind, ErrorKind::Type);
    assert_eq!(b.message(err), "argument 0 expects kind 3, got a bool");
    // A kind the core dispatcher does not marshal.
    let f = b.typed(touch, signature(&[HBYTES], HVOID));
    let err = b.call(f, &[Value::Null], LANG_B).unwrap_err();
    assert_eq!(b.error(err).kind, ErrorKind::Type);
    // A language with no dispatcher.
    b.signatures.push(signature(&[], HVOID));
    let f = Callable::Typed {
        func: 0,
        signature: b.signatures.len() - 1,
        lang: 9_999,
    };
    let err = b.call(f, &[], LANG_B).unwrap_err();
    assert_eq!(b.error(err).kind, ErrorKind::Internal);
    // Not a function type at all.
    let f = b.typed(touch, None);
    let err = b.call(f, &[], LANG_B).unwrap_err();
    assert_eq!(b.error(err).kind, ErrorKind::Type);
}

#[test]
fn a_registered_dispatcher_replaces_the_default_for_its_language() {
    const LANG_T: LangId = 4_242;
    let mut b = Bridge::new();
    assert!(b.dispatchers.typed_dispatch(LANG_T).is_none());
    b.dispatchers.set_typed_dispatch(LANG_T, 77);
    assert!(b.dispatchers.typed_dispatch(LANG_T).is_some());
    b.signatures.push(signature(&[], HI32));
    let r = b.call(
        Callable::Typed {
            func: 0,
            signature: 0,
            lang: LANG_T,
        },
        &[],
        LANG_B,
    );
    assert_eq!(r, Ok(Value::Int(7)));
}

#[test]
fn a_site_forgets_a_direct_send_that_no_longer_fits() {
    let mut site = CallSite::new();
    assert_eq!(site.try_direct(), None);
    assert_eq!(site.plain, 1);
    site.set_direct(12);
    assert_eq!(site.try_direct(), Some(12));
    assert_eq!(
        site.direct_answered(0, Value::Int(4)),
        Some(Ok(Value::Int(4)))
    );
    assert_eq!(site.direct_answered(3, Value::Null), Some(Err(())));
    assert_eq!(site.direct_answered(2, Value::Null), None);
    assert_eq!(site.direct, None);
    assert_eq!(site.plain, 2);
}

#[test]
fn a_direct_send_stands_for_the_plain_one() {
    let mut b = Bridge::new();
    let none = Vec::new();
    let f = Callable::Typed {
        func: 5,
        signature: 0,
        lang: LANG_A,
    };
    let typed = begin_call(&b.objects, &b.table, f, &none).unwrap();
    assert_eq!(direct_target(typed, 9), Some(5));
    let f = Callable::Cell {
        cell: 5,
        signature: 0,
        lang: LANG_A,
    };
    let cell = begin_call(&b.objects, &b.table, f, &none).unwrap();
    assert_eq!(direct_target(cell, 9), Some(9));
    let probe = b.probe(SUMS);
    let called = begin_call(&b.objects, &b.table, Callable::Dynamic(probe), &none).unwrap();
    assert_eq!(direct_target(called, 9), None);
    let sum = b.table.intern("sum");
    let invoked = begin_invoke(&b.objects, &b.table, probe, sum, 0).unwrap();
    assert_eq!(direct_target(invoked, 9), probe.object_of());

    let r = b.finish(typed, Came::Direct(Ok(Value::Int(1))), "f", LANG_B);
    assert_eq!(r, Ok(Value::Int(1)));
    let e = Error::new(&mut b.objects, ErrorKind::User, "late", LANG_A);
    b.set_pending(e);
    let r = b.finish(invoked, Came::Direct(Err(())), "sum", LANG_B);
    assert_eq!(r, Err(e));
    assert_eq!(b.frames(e).len(), 1);
    assert_eq!(b.frames(e)[0].lang, LANG_A);
    assert!(!b.has_pending());
}

#[test]
fn a_sequence_answers_or_says_why_not() {
    let mut b = Bridge::new();
    let probe = b.probe(SUMS);
    let n = b.sequence(probe, Sequence::Len, LANG_B);
    assert_eq!(length_of(n), Ok(3));
    assert_eq!(length_of(Ok(Value::Int(-1))), Ok(0));
    let err = b.sequence(probe, Sequence::Index, LANG_B).unwrap_err();
    assert_eq!(b.error(err).kind, ErrorKind::Index);
    assert_eq!(b.message(err), "a Probe has no element there");
    assert_eq!(b.frames(err)[0].lang, LANG_A);
    let err = b.sequence(probe, Sequence::SetIndex, LANG_B).unwrap_err();
    assert_eq!(b.error(err).kind, ErrorKind::Type);
    assert_eq!(b.message(err), "a Probe does not answer set_index");
    let err = b
        .sequence(Value::Int(4), Sequence::Len, LANG_B)
        .unwrap_err();
    assert_eq!(b.message(err), "an int does not answer len");
    assert_eq!(b.frames(err)[0].lang, LANG_CORE);
}

#[test]
fn a_run_from_a_marked_site_is_guarded() {
    let mut runs = Runs::new();
    let e = runs.enter(Some((5, false)), true);
    assert!(matches!(e, Entry::Marked(5)));
    assert_eq!(runs.note_reentry(), Some(5));
    assert!(runs.leave(e, 0));
    let e = runs.enter(Some((5, true)), true);
    assert!(matches!(e, Entry::Guarded));
    assert!(runs.guarded());
    assert!(!runs.leave(e, 3), "a throw landed in the guard");
    assert!(!runs.guarded());
    assert!(matches!(runs.enter(None, false), Entry::Plain));
}
