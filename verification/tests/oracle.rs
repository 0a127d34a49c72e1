//! Matching generated documents and checking every capture against
//! `serde_json`'s reading of the same text.

use std::collections::HashMap;

use json_match::{
    range_u32_to_usize, CaptureValue, FieldPattern, FieldType, MachineCaptureIndex, MatchMachine,
    PathSegment, Pattern,
};
use rand::distr::Alphanumeric;
use rand::rngs::StdRng;
use rand::{RngExt, SeedableRng};

/// Machine capture indices keyed by (set index, field index, predicate group name).
type CaptureIndices = HashMap<(u32, u32, Option<String>), MachineCaptureIndex>;

fn compile(sets: &[&[FieldPattern<'_>]]) -> (MatchMachine, CaptureIndices) {
    let mut captures = HashMap::new();
    let machine = MatchMachine::compile(sets.iter().map(|fields| Pattern { fields }), |args| {
        captures.insert(
            (
                args.match_set_index,
                args.field_index,
                args.predicate_capture_name.map(str::to_owned),
            ),
            args.capture_index_in_machine,
        );
    })
    .unwrap();
    (machine, captures)
}

fn key(s: &str) -> PathSegment {
    PathSegment::Key(s.into())
}

/// A representative predicate-free pattern: every field captured.
fn test_fields() -> Vec<FieldPattern<'static>> {
    let plain = |path: Vec<PathSegment>, field_type: FieldType| FieldPattern {
        path: Vec::leak(path),
        field_type,
        predicate: None,
        capture: true,
        exhaustive: false,
    };
    vec![
        plain(vec![key("foo")], FieldType::String),
        plain(vec![key("a"), key("b")], FieldType::Bool),
        plain(vec![key("a"), key("c")], FieldType::Object),
        plain(vec![key("a"), key("c"), key("d")], FieldType::String),
        plain(vec![key("list"), PathSegment::Index(0), key("name")], FieldType::String),
        plain(vec![key("list"), PathSegment::AnyIndex, key("id")], FieldType::Number),
    ]
}

/// The shape the chosen fields demand of the document, as a tree.
#[derive(Default)]
struct GenNode<'a> {
    key_children: Vec<(&'a str, usize)>,
    index_children: Vec<(u16, usize)>,
    any_index_child: Option<usize>,
    terminals: Vec<&'a FieldType>,
}

fn gen_child<'a>(nodes: &mut Vec<GenNode<'a>>, parent: usize, segment: &'a PathSegment) -> usize {
    let found = match segment {
        PathSegment::Key(key) => nodes[parent]
            .key_children
            .iter()
            .find(|&&(k, _)| k == key.as_str())
            .map(|&(_, c)| c),
        PathSegment::Index(index) => nodes[parent]
            .index_children
            .iter()
            .find(|&&(i, _)| i == *index)
            .map(|&(_, c)| c),
        PathSegment::AnyIndex => nodes[parent].any_index_child,
    };
    if let Some(child) = found {
        return child;
    }
    nodes.push(GenNode::default());
    let child = nodes.len() - 1;
    match segment {
        PathSegment::Key(key) => nodes[parent].key_children.push((key.as_str(), child)),
        PathSegment::Index(index) => nodes[parent].index_children.push((*index, child)),
        PathSegment::AnyIndex => nodes[parent].any_index_child = Some(child),
    }
    child
}

/// JSON that satisfies the fraction `closeness` of the fields, surrounded by
/// noise whose amount grows with `bloat`.
fn generate_test_json(fields: &[FieldPattern<'_>], closeness: f64, bloat: f64, rng: &mut StdRng) -> String {
    let bloat = if bloat.is_finite() { bloat.max(0.0) } else { 0.0 };
    let count = (closeness.clamp(0.0, 1.0) * fields.len() as f64).round() as usize;
    let mut indices: Vec<usize> = (0..fields.len()).collect();
    for i in 0..count {
        let j = rng.random_range(i..indices.len());
        indices.swap(i, j);
    }
    let mut nodes: Vec<GenNode<'_>> = vec![GenNode::default()];
    for &field_index in &indices[..count] {
        let field = &fields[field_index];
        let mut node = 0;
        for segment in field.path {
            node = gen_child(&mut nodes, node, segment);
        }
        nodes[node].terminals.push(&field.field_type);
    }
    let mut emitter = Emitter { nodes: &nodes, rng, bloat };
    emitter.value(0, 1)
}

struct Emitter<'n, 'a, 'r> {
    nodes: &'n [GenNode<'a>],
    rng: &'r mut StdRng,
    bloat: f64,
}

impl Emitter<'_, '_, '_> {
    fn value(&mut self, node: usize, level: usize) -> String {
        if !self.nodes[node].key_children.is_empty() {
            self.object(node, level)
        } else if !self.nodes[node].index_children.is_empty() || self.nodes[node].any_index_child.is_some() {
            self.array(node, level)
        } else if let Some(ty) = self.nodes[node].terminals.first() {
            self.terminal(ty)
        } else {
            self.primitive()
        }
    }

    fn object(&mut self, node: usize, level: usize) -> String {
        let real_keys: Vec<&str> = self.nodes[node].key_children.iter().map(|&(k, _)| k).collect();
        let mut members: Vec<String> = Vec::new();
        for i in 0..self.nodes[node].key_children.len() {
            let (name, child) = self.nodes[node].key_children[i];
            let value = self.value(child, level + 1);
            members.push(format!("{:?}:{}", name, value));
        }
        let spine_len = (level as f64 * self.bloat).floor() as usize;
        let extra = (self.bloat * real_keys.len().max(1) as f64 / 2.0).floor() as usize;
        let mut noise_values = Vec::new();
        if spine_len > 0 {
            noise_values.push(self.chain_value(spine_len));
        }
        while noise_values.len() < extra {
            let depth = self.rng.random_range(0..=2);
            noise_values.push(self.chain_value(depth));
        }
        for value in noise_values {
            let name = loop {
                let candidate = rand_name(self.rng);
                if !real_keys.iter().any(|&k| k == candidate) {
                    break candidate;
                }
            };
            let member = format!("{:?}:{}", name, value);
            let at = self.rng.random_range(0..=members.len());
            members.insert(at, member);
        }
        format!("{{{}}}", members.join(","))
    }

    fn array(&mut self, node: usize, level: usize) -> String {
        let base_len = self.nodes[node].index_children.iter().map(|&(i, _)| i as usize + 1).max().unwrap_or(0);
        let extra = usize::from(self.nodes[node].any_index_child.is_some()) + (self.bloat * 2.0).floor() as usize;
        let mut slots: Vec<Option<usize>> = vec![None; base_len + extra];
        for i in 0..self.nodes[node].index_children.len() {
            let (index, child) = self.nodes[node].index_children[i];
            slots[index as usize] = Some(child);
        }
        if let Some(any_child) = self.nodes[node].any_index_child {
            // Never at a fixed index: those slots carry their own structure.
            let free: Vec<usize> = slots.iter().enumerate().filter(|(_, s)| s.is_none()).map(|(i, _)| i).collect();
            let at = free[self.rng.random_range(0..free.len())];
            slots[at] = Some(any_child);
        }
        let elements: Vec<String> = slots
            .into_iter()
            .map(|slot| match slot {
                Some(child) => self.value(child, level + 1),
                None => self.primitive(),
            })
            .collect();
        format!("[{}]", elements.join(","))
    }

    fn terminal(&mut self, ty: &FieldType) -> String {
        match ty {
            FieldType::String => serde_json::to_string(&rand_string(self.rng)).unwrap(),
            FieldType::Number => noise_number(self.rng),
            FieldType::Bool => self.rng.random_bool(0.5).to_string(),
            FieldType::Null => "null".to_string(),
            FieldType::Object => {
                if self.bloat == 0.0 {
                    "{}".to_string()
                } else {
                    let len = self.rng.random_range(1..=2);
                    self.chain_object(len)
                }
            }
            FieldType::Array => {
                if self.bloat == 0.0 {
                    "[]".to_string()
                } else {
                    let len = self.rng.random_range(1..=2);
                    self.chain_array(len)
                }
            }
            FieldType::Literal(literal) => literal.to_string(),
            FieldType::Any => self.primitive(),
        }
    }

    fn chain_value(&mut self, len: usize) -> String {
        if len == 0 {
            self.primitive()
        } else if self.rng.random_bool(0.5) {
            self.chain_array(len)
        } else {
            self.chain_object(len)
        }
    }

    fn chain_array(&mut self, len: usize) -> String {
        let child = self.chain_value(len - 1);
        let mut items: Vec<String> = (0..self.sibling_count()).map(|_| self.primitive()).collect();
        let at = self.rng.random_range(0..=items.len());
        items.insert(at, child);
        format!("[{}]", items.join(","))
    }

    fn chain_object(&mut self, len: usize) -> String {
        let child = self.chain_value(len - 1);
        let mut members: Vec<String> = (0..self.sibling_count())
            .map(|_| format!("{:?}:{}", rand_name(self.rng), self.primitive()))
            .collect();
        let at = self.rng.random_range(0..=members.len());
        members.insert(at, format!("{:?}:{}", rand_name(self.rng), child));
        format!("{{{}}}", members.join(","))
    }

    fn sibling_count(&mut self) -> usize {
        let cap = ((self.bloat * 2.0).ceil() as usize).min(5);
        self.rng.random_range(0..=cap)
    }

    fn primitive(&mut self) -> String {
        match self.rng.random_range(0..4) {
            0 => serde_json::to_string(&rand_string(self.rng)).unwrap(),
            1 => noise_number(self.rng),
            2 => self.rng.random_bool(0.5).to_string(),
            _ => "null".to_string(),
        }
    }
}

fn rand_name(rng: &mut StdRng) -> String {
    let len = rng.random_range(1..=16);
    (0..len).map(|_| char::from(rng.sample(Alphanumeric))).collect()
}

fn rand_string(rng: &mut StdRng) -> String {
    let len = rng.random_range(1..=128);
    (0..len)
        .map(|_| {
            if rng.random_bool(0.001) {
                rng.sample(rand::distr::StandardUniform)
            } else if rng.random_bool(0.01) {
                *rng.sample(rand::distr::slice::Choose::new(b"\n\r\t ").unwrap()) as char
            } else {
                char::from(rng.sample(Alphanumeric))
            }
        })
        .collect()
}

fn noise_number(rng: &mut StdRng) -> String {
    if rng.random_bool(0.5) {
        rng.random_range(-1_000..1_000i64).to_string()
    } else {
        format!("{:.2}", rng.random_range(-1_000.0..1_000.0f64))
    }
}

#[test]
fn oracle_against_serde_json() {
    let fields = test_fields();
    let (machine, captures) = compile(&[&fields]);
    let mut state = machine.allocate_state();
    let mut rng = StdRng::seed_from_u64(0xB00B5);
    for round in 0..50 {
        let bloat = (round % 5) as f64;
        let json = generate_test_json(&fields, 1.0, bloat, &mut rng);
        let parsed: serde_json::Value = serde_json::from_str(&json).unwrap();
        machine.match_string(&json, &mut state).unwrap();
        assert!(state.result.did_match(0), "should match: {json}");

        for (field_index, field) in fields.iter().enumerate() {
            let capture = state.result.capture(captures[&(0, field_index as u32, None)]);
            // Navigate serde's tree along deterministic segments.
            let mut value = Some(&parsed);
            for segment in field.path {
                value = match (segment, value) {
                    (PathSegment::Key(key), Some(v)) => v.get(key.as_str()),
                    (PathSegment::Index(index), Some(v)) => v.get(*index as usize),
                    (PathSegment::AnyIndex, _) => {
                        value = None;
                        break;
                    }
                    _ => None,
                };
            }
            match (&field.field_type, value) {
                (FieldType::String, Some(expected)) => match capture {
                    Some(CaptureValue::String(s)) => {
                        assert_eq!(s.resolve(&json), expected.as_str().unwrap());
                    }
                    other => panic!("expected String, got {other:?}"),
                },
                (FieldType::Bool, Some(expected)) => {
                    assert!(
                        matches!(capture, Some(&CaptureValue::Bool(b)) if b == expected.as_bool().unwrap()),
                        "{capture:?}"
                    );
                }
                (FieldType::Object, Some(expected)) => match capture {
                    Some(CaptureValue::Object(range)) => {
                        let reparsed: serde_json::Value =
                            serde_json::from_str(&json[range_u32_to_usize(*range)]).unwrap();
                        assert_eq!(&reparsed, expected);
                    }
                    other => panic!("expected Object, got {other:?}"),
                },
                (FieldType::Number, None) => {
                    // AnyIndex path: just require that a number was captured.
                    assert!(matches!(capture, Some(CaptureValue::Number(_))));
                }
                (ty, value) => {
                    panic!("unhandled oracle case: {ty:?} vs {value:?}");
                }
            }
        }
    }
    // Empty documents must not match but must not error either.
    for _ in 0..10 {
        let json = generate_test_json(&fields, 0.0, 3.0, &mut rng);
        machine.match_string(&json, &mut state).unwrap();
        assert!(!state.result.did_match(0), "should not match: {json}");
    }
}
