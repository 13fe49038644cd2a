use gobx::decode::Decoder;
use gobx::error::GobError;
use gobx::value::Value;
use gobx::writer::GobWriter;
use std::cmp::Ordering;

/// A small generator of numbers: the same ones in every run.
struct Numbers(u64);

impl Numbers {
    fn next(&mut self) -> u64 {
        self.0 = self.0.wrapping_mul(6364136223846793005).wrapping_add(1442695040888963407);
        self.0 >> 11
    }

    fn below(&mut self, n: u64) -> u64 {
        self.next() % n
    }

    fn word(&mut self, at_least: u64) -> String {
        let len = at_least + self.below(4);
        (0..len).map(|_| (b'a' + self.below(26) as u8) as char).collect()
    }

    fn number(&mut self) -> u64 {
        match self.below(4) {
            0 => self.below(3),
            1 => self.below(300),
            2 => self.next(),
            _ => u64::MAX - self.below(3),
        }
    }

    /// A value that can be written and read back. `boxed` says that the
    /// value is a key or an element of a map.
    fn value(&mut self, depth: u32, boxed: bool) -> Value {
        let kinds = if depth == 0 { 7 } else { 9 };
        match self.below(kinds) {
            0 if boxed => Value::Nil,
            0 | 1 => Value::Bool(self.below(2) == 1),
            2 => Value::Int(self.number() as i64),
            3 => Value::Uint(self.number()),
            4 => Value::Float(self.number()),
            5 => Value::String(self.word(0)),
            6 => Value::Bytes((0..self.below(5)).map(|_| self.below(256) as u8).collect()),
            7 => {
                let mut entries: Vec<(Value, Value)> = Vec::new();
                for _ in 0..self.below(4) {
                    let k = self.value(depth - 1, true);
                    let v = self.value(depth - 1, true);
                    match entries.binary_search_by(|e| e.0.cmp(&k)) {
                        Ok(_) => {}
                        Err(at) => entries.insert(at, (k, v)),
                    }
                }
                Value::Dict(entries)
            }
            _ => {
                let mut fields: Vec<(String, Value)> = Vec::new();
                for _ in 0..self.below(4) {
                    let k = self.word(0);
                    let v = self.value(depth - 1, false);
                    match fields.binary_search_by(|e| e.0.cmp(&k)) {
                        Ok(_) => {}
                        Err(at) => fields.insert(at, (k, v)),
                    }
                }
                Value::Struct(self.word(1), fields)
            }
        }
    }
}

#[test]
fn random_values_round_trip() {
    let mut numbers = Numbers(7);
    let mut w = GobWriter::new(Vec::new());
    let mut values = Vec::new();
    for _ in 0..300 {
        let v = numbers.value(3, false);
        w.encode(&v).unwrap();
        values.push(v);
    }
    let mut d = Decoder::new(w.into_inner());
    for v in values {
        assert_eq!(d.read_next(), Ok(Some(v)));
    }
    assert_eq!(d.read_next(), Ok(None));
}

#[test]
fn random_messages_cut_short_fail() {
    let mut numbers = Numbers(11);
    for _ in 0..100 {
        let v = numbers.value(2, false);
        // the definitions go out with a first copy of the value
        let mut w = GobWriter::new(Vec::new());
        w.encode(&v).unwrap();
        let before = w.into_inner().len();
        let mut w = GobWriter::new(Vec::new());
        w.encode(&v).unwrap();
        w.encode(&v).unwrap();
        let bytes = w.into_inner();
        let mut cut = bytes.clone();
        cut.pop();
        let mut d = Decoder::new(cut);
        assert_eq!(d.read_next(), Ok(Some(v.clone())));
        let r = d.read_next();
        assert!(
            r == Err(GobError::TruncatedMessage) || r == Err(GobError::InvalidData),
            "{:?} cut by one byte: {:?}",
            v,
            r
        );
        assert!(bytes.len() > before);
    }
}

#[test]
fn random_values_are_ordered() {
    let mut numbers = Numbers(23);
    let values: Vec<Value> = (0..40).map(|_| numbers.value(2, true)).collect();
    for a in &values {
        assert_eq!(a.cmp(a), Ordering::Equal);
        for b in &values {
            let ab = a.cmp(b);
            assert_eq!(ab == Ordering::Equal, a == b);
            assert_eq!(b.cmp(a), ab.reverse());
            for c in &values {
                if ab == Ordering::Less && b.cmp(c) == Ordering::Less {
                    assert_eq!(a.cmp(c), Ordering::Less);
                }
            }
        }
    }
}

#[test]
fn what_is_read_is_in_order() {
    // a map message with its keys out of order: 2, 1, 3
    let mut w = GobWriter::new(Vec::new());
    w.encode(&Value::Dict(vec![])).unwrap();
    let mut bytes = w.into_inner();
    bytes.push(33);
    bytes.extend_from_slice(&[0xFF, 0x82, 3]);
    for k in [4u8, 2, 6] {
        bytes.extend_from_slice(&[5, b'i', b'n', b't', b'6', b'4', 4, 1, k, 0]);
    }
    let mut d = Decoder::new(bytes);
    assert_eq!(d.read_next(), Ok(Some(Value::Dict(vec![]))));
    assert_eq!(
        d.read_next(),
        Ok(Some(Value::Dict(vec![
            (Value::Int(1), Value::Nil),
            (Value::Int(2), Value::Nil),
            (Value::Int(3), Value::Nil),
        ])))
    );
}
