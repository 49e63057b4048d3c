use serverbuf::clock::tick;
use serverbuf::index::ScopeIndex;
use serverbuf::target::{relate_bytes, Rel};
use serverbuf::{BufferTarget, Query, QueryBuffer, QueryDirection};

fn lower_table() -> [u8; 256] {
    let mut table = [0u8; 256];
    for i in 0..256usize {
        let b = i as u8;
        table[i] = if b.is_ascii_uppercase() { b + 32 } else { b };
    }
    table
}

fn shift_table() -> [u8; 256] {
    let mut table = [0u8; 256];
    for i in 0..256usize {
        table[i] = (i as u8).wrapping_add(1);
    }
    table
}

#[test]
fn fold_maps_each_byte() {
    let key = BufferTarget::new(&lower_table(), b"#Rust-LANG[1]");
    assert_eq!(key.as_bytes(), b"#rust-lang[1]");
    let key = BufferTarget::new(&shift_table(), &[0, 1, 254, 255]);
    assert_eq!(key.as_bytes(), &[1, 2, 255, 0]);
    let key = BufferTarget::new(&lower_table(), b"");
    assert_eq!(key.as_bytes(), b"");
}

#[test]
fn fold_is_repeatable() {
    let a = BufferTarget::new(&lower_table(), b"NickServ");
    let b = BufferTarget::new(&lower_table(), b"NickServ");
    assert_eq!(a, b);
    assert_eq!(a.clone(), a);
}

#[test]
fn fold_is_idempotent() {
    let table = lower_table();
    for raw in [&b"#Chat"[..], b"", b"ABC xyz 123", &[0u8, 65, 90, 91, 255]] {
        let once = BufferTarget::new(&table, raw);
        let twice = BufferTarget::new(&table, once.as_bytes());
        assert_eq!(once, twice);
    }
}

#[test]
fn fold_through_a_shifting_table_is_not_idempotent() {
    let table = shift_table();
    let once = BufferTarget::new(&table, &[0]);
    let twice = BufferTarget::new(&table, once.as_bytes());
    assert_eq!(once.as_bytes(), &[1]);
    assert_eq!(twice.as_bytes(), &[2]);
}

#[test]
fn names_that_fold_alike_are_one_key() {
    let table = lower_table();
    let a = BufferTarget::new(&table, b"#chat");
    let b = BufferTarget::new(&table, b"#CHAT");
    assert_eq!(a.relate(&b), Rel::Same);
    assert_eq!(a, b);
    let c = BufferTarget::new(&table, b"#chat2");
    assert_eq!(a.relate(&c), Rel::Before);
    assert_eq!(c.relate(&a), Rel::After);
}

#[test]
fn bytes_are_ordered_lexicographically() {
    assert_eq!(relate_bytes(b"", b""), Rel::Same);
    assert_eq!(relate_bytes(b"", b"a"), Rel::Before);
    assert_eq!(relate_bytes(b"a", b""), Rel::After);
    assert_eq!(relate_bytes(b"abc", b"abd"), Rel::Before);
    assert_eq!(relate_bytes(b"abd", b"abc"), Rel::After);
    assert_eq!(relate_bytes(b"ab", b"abc"), Rel::Before);
    assert_eq!(relate_bytes(b"b", b"abc"), Rel::After);
    assert_eq!(relate_bytes(&[255], &[0, 0]), Rel::After);
    assert_eq!(relate_bytes(b"same", b"same"), Rel::Same);
}

#[test]
fn relate_agrees_with_the_derived_order() {
    let table = lower_table();
    let names: [&[u8]; 6] = [b"", b"a", b"ab", b"b", b"#x", &[255, 1]];
    for x in names.iter() {
        for y in names.iter() {
            let a = BufferTarget::new(&table, x);
            let b = BufferTarget::new(&table, y);
            let expected = if a < b {
                Rel::Before
            } else if a == b {
                Rel::Same
            } else {
                Rel::After
            };
            assert_eq!(a.relate(&b), expected);
            let qa = QueryBuffer::Target(a);
            let qb = QueryBuffer::Target(b);
            assert_eq!(qa.relate(&qb), expected);
        }
    }
}

#[test]
fn scopes_are_ordered_any_server_targets() {
    let table = lower_table();
    let low = QueryBuffer::Target(BufferTarget::new(&table, b""));
    let high = QueryBuffer::Target(BufferTarget::new(&table, b"z"));
    let order = [QueryBuffer::Any, QueryBuffer::Server, low, high];
    for i in 0..order.len() {
        for j in 0..order.len() {
            let expected = if i < j {
                Rel::Before
            } else if i == j {
                Rel::Same
            } else {
                Rel::After
            };
            assert_eq!(order[i].relate(&order[j]), expected);
            assert_eq!(order[i] < order[j], i < j);
        }
    }
    assert_eq!(QueryBuffer::Server.clone(), QueryBuffer::Server);
}

#[test]
fn tick_follows_the_clock_and_bumps_on_collision() {
    assert_eq!(tick(None, 0), Some(0));
    assert_eq!(tick(None, 5), Some(5));
    assert_eq!(tick(Some(5), 9), Some(9));
    assert_eq!(tick(Some(5), 5), Some(6));
    assert_eq!(tick(Some(5), 3), Some(6));
    assert_eq!(tick(Some(u64::MAX - 1), 0), Some(u64::MAX));
    assert_eq!(tick(Some(u64::MAX - 1), u64::MAX), Some(u64::MAX));
    assert_eq!(tick(Some(u64::MAX), 0), None);
    assert_eq!(tick(Some(u64::MAX), u64::MAX), None);
}

#[test]
fn builders_set_scope_and_direction() {
    let table = lower_table();
    assert_eq!(Query::any().direction(), QueryDirection::Newest);
    assert_eq!(Query::any().buffer(), &QueryBuffer::Any);
    assert_eq!(Query::server().direction(), QueryDirection::Newest);
    assert_eq!(Query::server().buffer(), &QueryBuffer::Server);
    let q = Query::target(BufferTarget::new(&table, b"#A"));
    assert_eq!(q.direction(), QueryDirection::Newest);
    assert_eq!(q.buffer(), &QueryBuffer::Target(BufferTarget::new(&table, b"#a")));
    let q = q.oldest();
    assert_eq!(q.direction(), QueryDirection::Oldest);
    let q = q.later(17);
    assert_eq!(q.direction(), QueryDirection::Later(17));
    let q = q.earlier(4);
    assert_eq!(q.direction(), QueryDirection::Earlier(4));
    assert_eq!(q.buffer(), &QueryBuffer::Target(BufferTarget::new(&table, b"#a")));
    let copy = q.clone();
    assert_eq!(copy, q);
    assert_eq!(q.newest().direction(), QueryDirection::Newest);
}

#[test]
fn index_is_a_set_in_order() {
    let table = lower_table();
    let a = || QueryBuffer::Target(BufferTarget::new(&table, b"a"));
    let b = || QueryBuffer::Target(BufferTarget::new(&table, b"b"));
    let mut index = ScopeIndex::new();
    assert_eq!(index.len(), 0);
    index.insert(b(), 3);
    index.insert(QueryBuffer::Any, 3);
    index.insert(a(), 9);
    index.insert(a(), 1);
    index.insert(QueryBuffer::Any, 1);
    index.insert(a(), 9);
    index.insert(QueryBuffer::Server, 2);
    assert_eq!(index.len(), 6);
    assert_eq!(index.select(&a(), QueryDirection::Oldest, 10), vec![1, 9]);
    assert_eq!(index.select(&a(), QueryDirection::Newest, 10), vec![9, 1]);
    assert_eq!(index.select(&a(), QueryDirection::Newest, 1), vec![9]);
    assert_eq!(index.select(&a(), QueryDirection::Later(1), 10), vec![9]);
    assert_eq!(index.select(&a(), QueryDirection::Earlier(9), 10), vec![1]);
    assert_eq!(index.select(&b(), QueryDirection::Oldest, 10), vec![3]);
    assert_eq!(index.select(&QueryBuffer::Any, QueryDirection::Oldest, 10), vec![1, 3]);
    assert_eq!(index.select(&QueryBuffer::Server, QueryDirection::Newest, 10), vec![2]);
    assert_eq!(index.select(&QueryBuffer::Server, QueryDirection::Newest, 0), Vec::<u64>::new());
    let c = QueryBuffer::Target(BufferTarget::new(&table, b"c"));
    assert_eq!(index.select(&c, QueryDirection::Oldest, 10), Vec::<u64>::new());
    assert_eq!(index.select(&c, QueryDirection::Newest, 10), Vec::<u64>::new());
}
