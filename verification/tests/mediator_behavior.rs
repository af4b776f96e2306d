use std::cell::RefCell;
use std::rc::Rc;

use jib::Consumer;
use jib::ConsumerRegistry;
use jib::Mediator;
use jib::Resource;
use jib::ResourceId;
use jib::ScriptedHost;

const SHAPE: u64 = 7;

struct Recorder {
    name: &'static str,
    events: Rc<RefCell<Vec<String>>>,
}

impl Consumer for Recorder {
    fn success(&mut self, resource: &Resource) {
        let bytes = resource.downcast(SHAPE).unwrap().clone();
        let text = String::from_utf8(bytes).unwrap();
        self.events.borrow_mut().push(format!("{}:success:{}", self.name, text));
    }

    fn error(&mut self, message: &str) {
        self.events.borrow_mut().push(format!("{}:error:{}", self.name, message));
    }
}

fn recorder(name: &'static str, events: &Rc<RefCell<Vec<String>>>) -> Recorder {
    Recorder { name, events: events.clone() }
}

fn ok_resource(content: &str) -> Result<Resource, String> {
    Ok(Resource::new(SHAPE, content.as_bytes().to_vec()))
}

#[test]
fn it_works() {
    assert_eq!(2 + 2, 4);
}

#[test]
fn one_shot_and_on_change_across_two_productions() {
    let events = Rc::new(RefCell::new(Vec::new()));
    let mut registry: ConsumerRegistry<Recorder> = ConsumerRegistry::new();
    let a = registry.register(recorder("A", &events));
    let b = registry.register(recorder("B", &events));
    let mut mediator = Mediator::new();
    let mut host = ScriptedHost::new();

    let r1 = ResourceId::new();
    mediator.declare_resource(r1);
    mediator.consume(r1, a);
    mediator.consume_on_change(r1, b);
    host.push_result(ok_resource("v1"));
    mediator.run(&mut host, &mut registry);
    assert_eq!(
        *events.borrow(),
        vec!["A:success:v1".to_string(), "B:success:v1".to_string()]
    );

    mediator.refresh(r1);
    host.push_result(ok_resource("v2"));
    mediator.run(&mut host, &mut registry);
    assert_eq!(events.borrow().len(), 3);
    assert_eq!(events.borrow()[2], "B:success:v2");
    assert_eq!(host.calls_made(), 2);
}

#[test]
fn failed_production_reports_error_once() {
    let events = Rc::new(RefCell::new(Vec::new()));
    let mut registry: ConsumerRegistry<Recorder> = ConsumerRegistry::new();
    let a = registry.register(recorder("A", &events));
    let mut mediator = Mediator::new();
    let mut host = ScriptedHost::new();

    let r2 = ResourceId::new();
    mediator.declare_resource(r2);
    mediator.consume(r2, a);
    host.push_result(Err("not found".to_string()));
    mediator.run(&mut host, &mut registry);
    assert_eq!(*events.borrow(), vec!["A:error:not found".to_string()]);

    mediator.run(&mut host, &mut registry);
    assert_eq!(events.borrow().len(), 1);
    assert_eq!(host.calls_made(), 1);
}

#[test]
fn production_deduplicated_for_many_subscribers() {
    let events = Rc::new(RefCell::new(Vec::new()));
    let mut registry: ConsumerRegistry<Recorder> = ConsumerRegistry::new();
    let a = registry.register(recorder("A", &events));
    let b = registry.register(recorder("B", &events));
    let c = registry.register(recorder("C", &events));
    let mut mediator = Mediator::new();
    let mut host = ScriptedHost::new();

    let id = ResourceId::new();
    mediator.consume(id, a);
    mediator.consume_on_change(id, b);
    mediator.consume(id, c);
    host.push_result(ok_resource("v1"));
    mediator.run(&mut host, &mut registry);

    assert_eq!(host.calls_made(), 1);
    assert_eq!(events.borrow().len(), 3);
}

#[test]
fn subscribers_notified_in_subscription_order() {
    let events = Rc::new(RefCell::new(Vec::new()));
    let mut registry: ConsumerRegistry<Recorder> = ConsumerRegistry::new();
    let a = registry.register(recorder("A", &events));
    let b = registry.register(recorder("B", &events));
    let c = registry.register(recorder("C", &events));
    let mut mediator = Mediator::new();
    let mut host = ScriptedHost::new();

    let id = ResourceId::new();
    mediator.consume(id, a);
    mediator.consume(id, b);
    mediator.consume(id, c);
    host.push_result(ok_resource("v1"));
    mediator.run(&mut host, &mut registry);

    assert_eq!(
        *events.borrow(),
        vec![
            "A:success:v1".to_string(),
            "B:success:v1".to_string(),
            "C:success:v1".to_string(),
        ]
    );
}

#[test]
fn one_shot_served_once_across_runs() {
    let events = Rc::new(RefCell::new(Vec::new()));
    let mut registry: ConsumerRegistry<Recorder> = ConsumerRegistry::new();
    let a = registry.register(recorder("A", &events));
    let mut mediator = Mediator::new();
    let mut host = ScriptedHost::new();

    let id = ResourceId::new();
    mediator.consume(id, a);
    host.push_result(ok_resource("v1"));
    mediator.run(&mut host, &mut registry);
    assert_eq!(events.borrow().len(), 1);

    mediator.refresh(id);
    host.push_result(ok_resource("v2"));
    mediator.run(&mut host, &mut registry);
    assert_eq!(events.borrow().len(), 1);
    assert_eq!(host.calls_made(), 2);
}

#[test]
fn on_change_persists_until_dropped() {
    let events = Rc::new(RefCell::new(Vec::new()));
    let mut registry: ConsumerRegistry<Recorder> = ConsumerRegistry::new();
    let b = registry.register(recorder("B", &events));
    let mut mediator = Mediator::new();
    let mut host = ScriptedHost::new();

    let id = ResourceId::new();
    mediator.consume_on_change(id, b);
    host.push_result(ok_resource("v1"));
    mediator.run(&mut host, &mut registry);
    mediator.refresh(id);
    host.push_result(ok_resource("v2"));
    mediator.run(&mut host, &mut registry);
    mediator.refresh(id);
    host.push_result(ok_resource("v3"));
    mediator.run(&mut host, &mut registry);
    assert_eq!(
        *events.borrow(),
        vec![
            "B:success:v1".to_string(),
            "B:success:v2".to_string(),
            "B:success:v3".to_string(),
        ]
    );

    registry.drop_consumer(b);
    mediator.refresh(id);
    host.push_result(ok_resource("v4"));
    mediator.run(&mut host, &mut registry);
    assert_eq!(events.borrow().len(), 3);
    assert_eq!(host.calls_made(), 4);
}

#[test]
fn dangling_consumer_pruned_silently() {
    let events = Rc::new(RefCell::new(Vec::new()));
    let mut registry: ConsumerRegistry<Recorder> = ConsumerRegistry::new();
    let a = registry.register(recorder("A", &events));
    let b = registry.register(recorder("B", &events));
    let mut mediator = Mediator::new();
    let mut host = ScriptedHost::new();

    let id = ResourceId::new();
    mediator.consume(id, a);
    mediator.consume(id, b);
    registry.drop_consumer(a);
    host.push_result(ok_resource("v1"));
    mediator.run(&mut host, &mut registry);

    assert_eq!(*events.borrow(), vec!["B:success:v1".to_string()]);
    assert_eq!(host.calls_made(), 1);
}

#[test]
fn cached_value_served_to_late_one_shot() {
    let events = Rc::new(RefCell::new(Vec::new()));
    let mut registry: ConsumerRegistry<Recorder> = ConsumerRegistry::new();
    let a = registry.register(recorder("A", &events));
    let late = registry.register(recorder("L", &events));
    let mut mediator = Mediator::new();
    let mut host = ScriptedHost::new();

    let id = ResourceId::new();
    mediator.consume(id, a);
    host.push_result(ok_resource("v1"));
    mediator.run(&mut host, &mut registry);
    assert_eq!(events.borrow().len(), 1);

    mediator.consume(id, late);
    mediator.run(&mut host, &mut registry);
    assert_eq!(events.borrow().len(), 2);
    assert_eq!(events.borrow()[1], "L:success:v1");
    assert_eq!(host.calls_made(), 1);
}

#[test]
fn error_does_not_unsubscribe_on_change() {
    let events = Rc::new(RefCell::new(Vec::new()));
    let mut registry: ConsumerRegistry<Recorder> = ConsumerRegistry::new();
    let b = registry.register(recorder("B", &events));
    let mut mediator = Mediator::new();
    let mut host = ScriptedHost::new();

    let id = ResourceId::new();
    mediator.consume_on_change(id, b);
    host.push_result(Err("disk gone".to_string()));
    mediator.run(&mut host, &mut registry);
    assert_eq!(*events.borrow(), vec!["B:error:disk gone".to_string()]);

    mediator.refresh(id);
    host.push_result(ok_resource("v1"));
    mediator.run(&mut host, &mut registry);
    assert_eq!(events.borrow().len(), 2);
    assert_eq!(events.borrow()[1], "B:success:v1");
}

#[test]
fn implicit_declaration_on_consume() {
    let events = Rc::new(RefCell::new(Vec::new()));
    let mut registry: ConsumerRegistry<Recorder> = ConsumerRegistry::new();
    let a = registry.register(recorder("A", &events));
    let mut mediator = Mediator::new();
    let mut host = ScriptedHost::new();

    let id = ResourceId::new();
    mediator.consume(id, a);
    host.push_result(ok_resource("v1"));
    mediator.run(&mut host, &mut registry);
    assert_eq!(*events.borrow(), vec!["A:success:v1".to_string()]);
}

#[test]
fn manual_completion_notifies_and_settles() {
    let events = Rc::new(RefCell::new(Vec::new()));
    let mut registry: ConsumerRegistry<Recorder> = ConsumerRegistry::new();
    let a = registry.register(recorder("A", &events));
    let mut mediator = Mediator::new();

    let id = ResourceId::new();
    mediator.consume(id, a);
    let concluded = mediator.complete_production(id, ok_resource("v1"), &mut registry);
    assert!(concluded);
    assert_eq!(*events.borrow(), vec!["A:success:v1".to_string()]);

    let concluded_again = mediator.complete_production(id, ok_resource("v2"), &mut registry);
    assert!(!concluded_again);
    assert_eq!(events.borrow().len(), 1);
}

#[test]
fn invalidated_value_is_produced_anew() {
    let events = Rc::new(RefCell::new(Vec::new()));
    let mut registry: ConsumerRegistry<Recorder> = ConsumerRegistry::new();
    let a = registry.register(recorder("A", &events));
    let late = registry.register(recorder("L", &events));
    let mut mediator = Mediator::new();
    let mut host = ScriptedHost::new();

    let id = ResourceId::new();
    mediator.consume(id, a);
    host.push_result(ok_resource("v1"));
    mediator.run(&mut host, &mut registry);
    assert_eq!(host.calls_made(), 1);

    mediator.invalidate(id);
    mediator.consume(id, late);
    host.push_result(ok_resource("v2"));
    mediator.run(&mut host, &mut registry);
    assert_eq!(host.calls_made(), 2);
    assert_eq!(events.borrow().len(), 2);
    assert_eq!(events.borrow()[1], "L:success:v2");
}

#[test]
fn exhausted_host_reports_error() {
    let events = Rc::new(RefCell::new(Vec::new()));
    let mut registry: ConsumerRegistry<Recorder> = ConsumerRegistry::new();
    let a = registry.register(recorder("A", &events));
    let mut mediator = Mediator::new();
    let mut host = ScriptedHost::new();

    let id = ResourceId::new();
    mediator.consume(id, a);
    mediator.run(&mut host, &mut registry);
    assert_eq!(
        *events.borrow(),
        vec!["A:error:host script exhausted".to_string()]
    );
}
