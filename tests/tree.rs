use engine::table::{Options, Table};

const N: usize = 1 << 10;

fn options() -> Options {
    Options {
        cache_size: usize::MAX,
        data_node_size: 64,
        data_delta_length: 2,
        index_node_size: 32,
        index_delta_length: 2,
    }
}

struct Sequence {
    lsn: u64,
}

impl Sequence {
    fn get(&self) -> u64 {
        self.lsn
    }

    fn inc(&mut self) -> u64 {
        self.lsn += 1;
        self.lsn
    }
}

fn open(opts: Options) -> Table {
    Table::open(opts).unwrap()
}

fn get(map: &Table, seq: &Sequence, i: usize, should_exists: bool) {
    let buf = i.to_be_bytes();
    let key = buf.as_slice();
    let lsn = seq.get();
    let expect = if should_exists { Some(key.to_vec()) } else { None };
    assert_eq!(map.get(key, lsn), expect);
}

fn iter(map: &Table, start: usize, end: usize, step: usize) {
    let mut i = start;
    let mut iter = map.iter();
    while let Some((k, v)) = iter.next() {
        let buf = i.to_be_bytes();
        let key = buf.as_slice();
        assert_eq!((k.as_slice(), v.as_slice()), (key, key));
        i += step;
    }
    assert_eq!(i, end);
}

fn put(map: &mut Table, seq: &mut Sequence, i: usize) {
    let buf = i.to_be_bytes();
    let key = buf.as_slice();
    let lsn = seq.inc();
    map.put(key, lsn, key).unwrap();
    assert_eq!(map.get(key, lsn).unwrap(), key);
}

fn delete(map: &mut Table, seq: &mut Sequence, i: usize) {
    let buf = i.to_be_bytes();
    let key = buf.as_slice();
    let lsn = seq.inc();
    map.delete(key, lsn).unwrap();
    assert_eq!(map.get(key, lsn), None);
}

#[test]
fn crud() {
    let mut seq = Sequence { lsn: 0 };
    let mut map = open(options());
    get(&map, &seq, 0, false);
    put(&mut map, &mut seq, 0);
    delete(&mut map, &mut seq, 0);
}

#[test]
fn repeated_crud() {
    let mut seq = Sequence { lsn: 0 };
    let mut map = open(options());
    for _ in 0..2 {
        // Forward
        for i in 0..N {
            put(&mut map, &mut seq, i);
        }
        for i in 0..N {
            get(&map, &seq, i, true);
        }
        iter(&map, 0, N, 1);
        for i in (1..N).step_by(2) {
            delete(&mut map, &mut seq, i);
        }
        iter(&map, 0, N, 2);
        // Backward
        for i in (0..N).rev() {
            put(&mut map, &mut seq, i);
        }
        for i in (0..N).rev() {
            get(&map, &seq, i, true);
        }
        iter(&map, 0, N, 1);
        for i in (1..N).rev().step_by(2) {
            delete(&mut map, &mut seq, i);
        }
        iter(&map, 0, N, 2);
    }
}
