use msgnats_server::delivery::{format_msg, write_decimal};
use msgnats_server::simple_sublist::{RoundRobin, SimpleSubList, SubResult, SubScription};

fn sub(
    list: &mut SimpleSubList<u32>,
    sink: u32,
    subject: &str,
    queue: Option<&str>,
    sid: &str,
) -> SubScription<u32> {
    list.new_subscription(sink, subject.as_bytes(), queue.map(|q| q.as_bytes()), sid.as_bytes())
        .unwrap()
}

fn plain_ids(r: &SubResult<u32>) -> Vec<u64> {
    let mut v: Vec<u64> = r.ppubs.iter().map(|s| s.id()).collect();
    v.sort();
    v
}

#[test]
fn exact_match_isolation() {
    let mut list = SimpleSubList::new();
    let s = sub(&mut list, 1, "a.b", None, "1");
    list.insert(s).unwrap();
    assert!(list.match_subject(b"a.b.c").is_empty());
    assert!(list.match_subject(b"a").is_empty());
    assert!(list.match_subject(b"a.*").is_empty());
    assert_eq!(list.match_subject(b"a.b").ppubs.len(), 1);
}

#[test]
fn plain_fan_out() {
    let mut list = SimpleSubList::new();
    let mut kept = Vec::new();
    for i in 0..5u32 {
        let s = sub(&mut list, i, "news", None, &i.to_string());
        kept.push(s.duplicate());
        list.insert(s).unwrap();
    }
    let r = list.match_subject(b"news");
    assert_eq!(plain_ids(&r), kept.iter().map(|s| s.id()).collect::<Vec<_>>());
    assert!(r.qpubs.is_empty());
    list.remove(&kept[2]).unwrap();
    let r = list.match_subject(b"news");
    let expect: Vec<u64> = kept.iter().filter(|s| s.id() != kept[2].id()).map(|s| s.id()).collect();
    assert_eq!(plain_ids(&r), expect);
    let sids: Vec<Vec<u8>> = {
        let mut v: Vec<Vec<u8>> = r.ppubs.iter().map(|s| s.sid.clone()).collect();
        v.sort();
        v
    };
    assert_eq!(sids, vec![b"0".to_vec(), b"1".to_vec(), b"3".to_vec(), b"4".to_vec()]);
}

#[test]
fn queue_groups_are_listed_apart() {
    let mut list = SimpleSubList::new();
    let p = sub(&mut list, 1, "jobs", None, "p");
    let w1 = sub(&mut list, 2, "jobs", Some("workers"), "w1");
    let w2 = sub(&mut list, 3, "jobs", Some("workers"), "w2");
    let a1 = sub(&mut list, 4, "jobs", Some("audit"), "a1");
    let (pid, w1id, w2id, a1id) = (p.id(), w1.id(), w2.id(), a1.id());
    for s in [p, w1, w2, a1] {
        list.insert(s).unwrap();
    }
    let r = list.match_subject(b"jobs");
    assert_eq!(plain_ids(&r), vec![pid]);
    assert_eq!(r.qpubs.len(), 2);
    let mut groups: Vec<Vec<u64>> = r
        .qpubs
        .iter()
        .map(|g| {
            let mut ids: Vec<u64> = g.iter().map(|s| s.id()).collect();
            ids.sort();
            ids
        })
        .collect();
    groups.sort();
    let mut expect = vec![vec![w1id, w2id], vec![a1id]];
    expect.sort();
    assert_eq!(groups, expect);
    for g in &r.qpubs {
        let q = g[0].queue.clone();
        assert!(g.iter().all(|s| s.queue == q));
    }
}

#[test]
fn queue_group_round_robin_is_a_permutation() {
    let mut list = SimpleSubList::new();
    let plain = sub(&mut list, 9, "q", None, "plain");
    let plain_id = plain.id();
    list.insert(plain).unwrap();
    for i in 0..4u32 {
        let s = sub(&mut list, i, "q", Some("g"), &i.to_string());
        list.insert(s).unwrap();
    }
    let mut rr = RoundRobin::new();
    let mut got = Vec::new();
    for _ in 0..4 {
        let r = list.match_subject(b"q");
        assert_eq!(plain_ids(&r), vec![plain_id]);
        assert_eq!(r.qpubs.len(), 1);
        let g = &r.qpubs[0];
        let k = rr.pick(g.len());
        got.push(g[k].msg_sender);
    }
    got.sort();
    assert_eq!(got, vec![0, 1, 2, 3]);
}

#[test]
fn round_robin_wraps() {
    let mut rr = RoundRobin::new();
    let picks: Vec<usize> = (0..7).map(|_| rr.pick(3)).collect();
    assert_eq!(picks, vec![0, 1, 2, 0, 1, 2, 0]);
}

#[test]
fn identity_based_removal() {
    let mut list = SimpleSubList::new();
    let a = sub(&mut list, 1, "x", Some("g"), "7");
    let b = sub(&mut list, 1, "x", Some("g"), "7");
    assert_ne!(a.id(), b.id());
    let (a_keep, b_keep) = (a.duplicate(), b.duplicate());
    list.insert(a).unwrap();
    list.insert(b).unwrap();
    assert_eq!(list.match_subject(b"x").qpubs[0].len(), 2);
    list.remove(&a_keep).unwrap();
    let r = list.match_subject(b"x");
    assert_eq!(r.qpubs.len(), 1);
    assert_eq!(r.qpubs[0].len(), 1);
    assert_eq!(r.qpubs[0][0].id(), b_keep.id());
}

#[test]
fn idempotent_removal() {
    let mut list = SimpleSubList::new();
    let a = sub(&mut list, 1, "x", None, "1");
    let b = sub(&mut list, 2, "x", None, "2");
    let never = sub(&mut list, 3, "x", None, "3");
    let (a_keep, b_id) = (a.duplicate(), b.id());
    list.insert(a).unwrap();
    list.insert(b).unwrap();
    assert!(list.remove(&a_keep).is_ok());
    assert!(list.remove(&a_keep).is_ok());
    assert!(list.remove(&never).is_ok());
    assert_eq!(plain_ids(&list.match_subject(b"x")), vec![b_id]);
}

#[test]
fn insert_twice_keeps_one() {
    let mut list = SimpleSubList::new();
    let a = sub(&mut list, 1, "x", None, "1");
    let again = a.duplicate();
    list.insert(a).unwrap();
    list.insert(again).unwrap();
    assert_eq!(list.match_subject(b"x").ppubs.len(), 1);
}

#[test]
fn cleanup_after_last_removal() {
    let mut list = SimpleSubList::new();
    let a = sub(&mut list, 1, "x", None, "1");
    let q = sub(&mut list, 2, "x", Some("g"), "2");
    let (a_keep, q_keep) = (a.duplicate(), q.duplicate());
    list.insert(a).unwrap();
    list.insert(q).unwrap();
    list.remove(&a_keep).unwrap();
    let r = list.match_subject(b"x");
    assert!(r.ppubs.is_empty());
    assert_eq!(r.qpubs.len(), 1);
    list.remove(&q_keep).unwrap();
    assert!(list.match_subject(b"x").is_empty());
    // the subject can be subscribed to again
    let c = sub(&mut list, 3, "x", Some("g"), "3");
    let c_id = c.id();
    list.insert(c).unwrap();
    let r = list.match_subject(b"x");
    assert_eq!(r.qpubs.len(), 1);
    assert_eq!(r.qpubs[0][0].id(), c_id);
}

#[test]
fn sub_result_new_is_empty() {
    let r: SubResult<u32> = SubResult::new();
    assert!(r.is_empty());
}

#[test]
fn msg_frame_bytes() {
    assert_eq!(format_msg(b"foo", b"7", b"hello"), b"MSG foo 7 5\r\nhello\r\n".to_vec());
    assert_eq!(format_msg(b"a.b", b"sid", b""), b"MSG a.b sid 0\r\n\r\n".to_vec());
    let payload = vec![b'z'; 1234];
    let frame = format_msg(b"s", b"1", &payload);
    assert!(frame.starts_with(b"MSG s 1 1234\r\n"));
    assert_eq!(frame.len(), 14 + 1234 + 2);
}

#[test]
fn decimal_rendering() {
    let mut out = Vec::new();
    write_decimal(&mut out, 0);
    assert_eq!(out, b"0".to_vec());
    let mut out = b"x".to_vec();
    write_decimal(&mut out, 18446744073709551615);
    assert_eq!(out, b"x18446744073709551615".to_vec());
}
