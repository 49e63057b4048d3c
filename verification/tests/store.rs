use serverbuf::{BufferTarget, IngestError, Query, QueryBuffer, QueryDirection, QueryError, Server};

fn ascii_lower() -> [u8; 256] {
    let mut table = [0u8; 256];
    for i in 0..256usize {
        let b = i as u8;
        table[i] = if b.is_ascii_uppercase() { b + 32 } else { b };
    }
    table
}

fn key(name: &str) -> BufferTarget {
    BufferTarget::new(&ascii_lower(), name.as_bytes())
}

fn text(s: &str) -> String {
    s.to_string()
}

/// Stamps 10, 20, .. 10 * n, each record holding its own number; odd ones go
/// to "#odd", those divisible by four to "#four", the rest to the server.
fn numbered(n: u32) -> Server<u32> {
    let mut server: Server<u32> = Server::new();
    for i in 1..=n {
        let mut targets = Vec::new();
        if i % 2 == 1 {
            targets.push(key("#odd"));
        }
        if i % 4 == 0 {
            targets.push(key("#four"));
        }
        assert_eq!(server.add_irc_msg_at(10 * i as u64, i, targets), Ok(10 * i as u64));
    }
    server
}

#[test]
fn scenario_two_names_one_scope() {
    let mut server: Server<String> = Server::new();
    let a = server.add_irc_msg_at(100, text("A"), vec![key("#chat")]).unwrap();
    let b = server.add_irc_msg_at(200, text("B"), vec![]).unwrap();
    let c = server.add_irc_msg_at(300, text("C"), vec![key("#Chat")]).unwrap();
    assert_eq!((a, b, c), (100, 200, 300));

    let result = server.query(Query::target(key("#chat")).oldest(), 10).ok().unwrap();
    assert_eq!(result.messages(), &vec![text("A"), text("C")]);
    assert_eq!(result.next().direction(), QueryDirection::Later(c));
    assert_eq!(result.next().buffer(), &QueryBuffer::Target(key("#chat")));

    let result = server.query(Query::server().newest(), 10).ok().unwrap();
    assert_eq!(result.messages(), &vec![text("B")]);
    assert_eq!(result.next().direction(), QueryDirection::Earlier(b));
    assert_eq!(result.next().buffer(), &QueryBuffer::Server);
}

#[test]
fn empty_store_returns_nothing_and_keeps_the_cursor() {
    let server: Server<String> = Server::new();
    let directions = [
        QueryDirection::Oldest,
        QueryDirection::Later(5),
        QueryDirection::Earlier(5),
        QueryDirection::Newest,
    ];
    for direction in directions.iter() {
        let scopes = vec![Query::any(), Query::server(), Query::target(key("#chat"))];
        for scope in scopes {
            let wanted = scope.buffer().clone();
            let query = match *direction {
                QueryDirection::Oldest => scope.oldest(),
                QueryDirection::Later(t) => scope.later(t),
                QueryDirection::Earlier(t) => scope.earlier(t),
                QueryDirection::Newest => scope.newest(),
            };
            let result = server.query(query, 10).ok().unwrap();
            assert!(result.messages().is_empty());
            assert_eq!(result.next().direction(), *direction);
            assert_eq!(result.next().buffer(), &wanted);
        }
    }
    assert_eq!(server.latest(), None);
}

#[test]
fn target_scope_holds_its_records_and_no_others() {
    let server = numbered(8);
    let odd = server.query(Query::target(key("#odd")).oldest(), 255).ok().unwrap();
    assert_eq!(odd.messages(), &vec![1, 3, 5, 7]);
    let four = server.query(Query::target(key("#FOUR")).oldest(), 255).ok().unwrap();
    assert_eq!(four.messages(), &vec![4, 8]);
    let none = server.query(Query::target(key("#nobody")).oldest(), 255).ok().unwrap();
    assert!(none.messages().is_empty());
    assert_eq!(none.next().direction(), QueryDirection::Oldest);
}

#[test]
fn any_holds_everything_and_server_the_untargeted() {
    let server = numbered(8);
    let any = server.query(Query::any().oldest(), 255).ok().unwrap();
    assert_eq!(any.messages(), &vec![1, 2, 3, 4, 5, 6, 7, 8]);
    let plain = server.query(Query::server().oldest(), 255).ok().unwrap();
    assert_eq!(plain.messages(), &vec![2, 6]);
}

#[test]
fn record_with_several_targets_is_in_each() {
    let mut server: Server<String> = Server::new();
    server.add_irc_msg_at(1, text("both"), vec![key("#a"), key("#b")]).unwrap();
    server.add_irc_msg_at(2, text("only a"), vec![key("#a")]).unwrap();
    let a = server.query(Query::target(key("#a")).oldest(), 10).ok().unwrap();
    assert_eq!(a.messages(), &vec![text("both"), text("only a")]);
    let b = server.query(Query::target(key("#b")).oldest(), 10).ok().unwrap();
    assert_eq!(b.messages(), &vec![text("both")]);
    let plain = server.query(Query::server().oldest(), 10).ok().unwrap();
    assert!(plain.messages().is_empty());
    let any = server.query(Query::any().oldest(), 10).ok().unwrap();
    assert_eq!(any.messages().len(), 2);
}

#[test]
fn repeated_target_counts_once() {
    let mut server: Server<String> = Server::new();
    server.add_irc_msg_at(1, text("x"), vec![key("#a"), key("#A"), key("#a")]).unwrap();
    let a = server.query(Query::target(key("#a")).oldest(), 10).ok().unwrap();
    assert_eq!(a.messages(), &vec![text("x")]);
}

#[test]
fn upward_walks_rise_and_downward_walks_fall() {
    let server = numbered(9);
    let up = server.query(Query::any().oldest(), 255).ok().unwrap();
    assert!(up.messages().windows(2).all(|w| w[0] < w[1]));
    let up = server.query(Query::any().later(35), 255).ok().unwrap();
    assert_eq!(up.messages(), &vec![4, 5, 6, 7, 8, 9]);
    let down = server.query(Query::any().newest(), 255).ok().unwrap();
    assert_eq!(down.messages(), &vec![9, 8, 7, 6, 5, 4, 3, 2, 1]);
    let down = server.query(Query::target(key("#odd")).earlier(70), 255).ok().unwrap();
    assert_eq!(down.messages(), &vec![5, 3, 1]);
}

#[test]
fn cursor_bounds_are_strict() {
    let server = numbered(5);
    let later = server.query(Query::any().later(30), 255).ok().unwrap();
    assert_eq!(later.messages(), &vec![4, 5]);
    let earlier = server.query(Query::any().earlier(30), 255).ok().unwrap();
    assert_eq!(earlier.messages(), &vec![2, 1]);
    let past = server.query(Query::any().later(50), 255).ok().unwrap();
    assert!(past.messages().is_empty());
    assert_eq!(past.next().direction(), QueryDirection::Later(50));
    let first = server.query(Query::any().earlier(10), 255).ok().unwrap();
    assert!(first.messages().is_empty());
    assert_eq!(first.next().direction(), QueryDirection::Earlier(10));
}

#[test]
fn cursor_at_the_ends_of_the_stamp_range() {
    let mut server: Server<u32> = Server::new();
    server.add_irc_msg_at(0, 1, vec![]).unwrap();
    server.add_irc_msg_at(u64::MAX, 2, vec![]).unwrap();
    let all = server.query(Query::server().oldest(), 10).ok().unwrap();
    assert_eq!(all.messages(), &vec![1, 2]);
    assert_eq!(all.next().direction(), QueryDirection::Later(u64::MAX));
    let none = server.query(Query::server().later(u64::MAX), 10).ok().unwrap();
    assert!(none.messages().is_empty());
    let none = server.query(Query::server().earlier(0), 10).ok().unwrap();
    assert!(none.messages().is_empty());
    let down = server.query(Query::server().newest(), 10).ok().unwrap();
    assert_eq!(down.messages(), &vec![2, 1]);
    let down = server.query(Query::server().earlier(u64::MAX), 10).ok().unwrap();
    assert_eq!(down.messages(), &vec![1]);
    let up = server.query(Query::server().later(0), 10).ok().unwrap();
    assert_eq!(up.messages(), &vec![2]);
}

#[test]
fn paging_upward_rebuilds_the_whole_walk() {
    let server = numbered(11);
    let whole = server.query(Query::target(key("#odd")).oldest(), 255).ok().unwrap();
    let mut pages: Vec<u32> = Vec::new();
    let mut query = Query::target(key("#odd")).oldest();
    let mut rounds = 0;
    loop {
        let (next, mut messages) = server.query(query, 2).ok().unwrap().into_parts();
        assert!(messages.len() <= 2);
        if messages.is_empty() {
            assert_eq!(next.direction(), QueryDirection::Later(110));
            break;
        }
        pages.append(&mut messages);
        query = next;
        rounds += 1;
    }
    assert_eq!(rounds, 3);
    assert_eq!(&pages, whole.messages());
    assert_eq!(pages, vec![1, 3, 5, 7, 9, 11]);
}

#[test]
fn paging_downward_rebuilds_the_whole_walk() {
    let server = numbered(10);
    let whole = server.query(Query::any().newest(), 255).ok().unwrap();
    let mut pages: Vec<u32> = Vec::new();
    let mut query = Query::any();
    loop {
        let (next, mut messages) = server.query(query, 3).ok().unwrap().into_parts();
        if messages.is_empty() {
            assert_eq!(next.direction(), QueryDirection::Earlier(10));
            break;
        }
        pages.append(&mut messages);
        query = next;
    }
    assert_eq!(&pages, whole.messages());
    assert_eq!(pages, vec![10, 9, 8, 7, 6, 5, 4, 3, 2, 1]);
}

#[test]
fn tailing_sees_records_that_arrive_later() {
    let mut server: Server<u32> = Server::new();
    server.add_irc_msg_at(5, 1, vec![key("#a")]).unwrap();
    let (cursor, messages) = server.query(Query::target(key("#a")).oldest(), 10).ok().unwrap().into_parts();
    assert_eq!(messages, vec![1]);
    let (cursor, messages) = server.query(cursor, 10).ok().unwrap().into_parts();
    assert!(messages.is_empty());
    assert_eq!(cursor.direction(), QueryDirection::Later(5));
    server.add_irc_msg_at(6, 2, vec![]).unwrap();
    server.add_irc_msg_at(7, 3, vec![key("#a")]).unwrap();
    let (cursor, messages) = server.query(cursor, 10).ok().unwrap().into_parts();
    assert_eq!(messages, vec![3]);
    assert_eq!(cursor.direction(), QueryDirection::Later(7));
    assert_eq!(cursor.buffer(), &QueryBuffer::Target(key("#a")));
}

#[test]
fn limit_is_respected() {
    let server = numbered(20);
    for limit in 1..=25u8 {
        let up = server.query(Query::any().oldest(), limit).ok().unwrap();
        assert_eq!(up.messages().len(), std::cmp::min(limit as usize, 20));
        let down = server.query(Query::any().newest(), limit).ok().unwrap();
        assert_eq!(down.messages().len(), std::cmp::min(limit as usize, 20));
    }
    let one = server.query(Query::any().oldest(), 1).ok().unwrap();
    assert_eq!(one.messages(), &vec![1]);
    assert_eq!(one.next().direction(), QueryDirection::Later(10));
}

#[test]
fn zero_limit_is_refused() {
    let server = numbered(3);
    assert_eq!(server.query(Query::any(), 0).err(), Some(QueryError::ZeroLimit));
    let empty: Server<u32> = Server::new();
    assert_eq!(empty.query(Query::server().oldest(), 0).err(), Some(QueryError::ZeroLimit));
}

#[test]
fn equal_readings_get_rising_stamps() {
    let mut server: Server<u32> = Server::new();
    assert_eq!(server.add_irc_msg_at(7, 1, vec![]), Ok(7));
    assert_eq!(server.add_irc_msg_at(7, 2, vec![]), Ok(8));
    assert_eq!(server.add_irc_msg_at(3, 3, vec![]), Ok(9));
    assert_eq!(server.add_irc_msg_at(100, 4, vec![]), Ok(100));
    assert_eq!(server.latest(), Some(100));
    let all = server.query(Query::any().oldest(), 10).ok().unwrap();
    assert_eq!(all.messages(), &vec![1, 2, 3, 4]);
}

#[test]
fn last_stamp_ends_the_store() {
    let mut server: Server<u32> = Server::new();
    assert_eq!(server.add_irc_msg_at(u64::MAX, 1, vec![key("#a")]), Ok(u64::MAX));
    assert_eq!(server.add_irc_msg_at(5, 2, vec![key("#a")]), Err(IngestError::StampsExhausted));
    assert_eq!(server.add_irc_msg(3, vec![]), Err(IngestError::StampsExhausted));
    let all = server.query(Query::any().oldest(), 10).ok().unwrap();
    assert_eq!(all.messages(), &vec![1]);
    assert_eq!(server.latest(), Some(u64::MAX));
}

#[test]
fn clock_stamps_rise() {
    let mut server: Server<u32> = Server::new();
    let mut last = None;
    for i in 0..50u32 {
        let stamp = server.add_irc_msg(i, vec![key("#a")]).unwrap();
        if let Some(previous) = last {
            assert!(previous < stamp);
        }
        last = Some(stamp);
    }
    assert_eq!(server.latest(), last);
    let all = server.query(Query::target(key("#A")).oldest(), 255).ok().unwrap();
    assert_eq!(all.messages(), &(0..50u32).collect::<Vec<u32>>());
}

#[test]
fn records_are_cloned_not_moved() {
    let mut server: Server<Vec<u8>> = Server::new();
    server.add_irc_msg_at(1, b"PING :a".to_vec(), vec![]).unwrap();
    let first = server.query(Query::any(), 1).ok().unwrap();
    let second = server.query(Query::any(), 1).ok().unwrap();
    assert_eq!(first.messages(), &vec![b"PING :a".to_vec()]);
    assert_eq!(first.messages(), second.messages());
}

#[test]
fn lookup_clones_in_order_and_names_the_last_stamp() {
    let mut buffer: std::collections::BTreeMap<u64, String> = std::collections::BTreeMap::new();
    buffer.insert(1, text("one"));
    buffer.insert(2, text("two"));
    buffer.insert(3, text("three"));
    let found = serverbuf::server::query_helper(&vec![3, 1], &buffer);
    assert_eq!(found, Ok(Some((1, vec![text("three"), text("one")]))));
    let found = serverbuf::server::query_helper(&vec![], &buffer);
    assert_eq!(found, Ok(None));
}

#[test]
fn lookup_of_a_stamp_without_record_is_a_fault() {
    let mut buffer: std::collections::BTreeMap<u64, String> = std::collections::BTreeMap::new();
    buffer.insert(1, text("one"));
    let found = serverbuf::server::query_helper(&vec![1, 4], &buffer);
    assert_eq!(found, Err(QueryError::MissingRecord));
}
