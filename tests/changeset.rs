use changeset::apool::{AttribPair, Mem};
use changeset::changeset::Changeset;
use changeset::compose::compose;
use changeset::error::ChangesetError;
use changeset::follow::follow;
use changeset::ops::OpKind;

fn pool() -> Mem {
    let mut mem = Mem::new(1);
    mem.set(AttribPair { attrib_num: 4, attrib_str: "color:red".to_string() });
    mem.set(AttribPair { attrib_num: 5, attrib_str: "color:black".to_string() });
    mem
}

fn parse(mem: &Mem, s: &str) -> Changeset {
    Changeset::from_iter(mem, s.as_bytes()).unwrap_or_else(|e| panic!("{:?}", e))
}

#[test]
fn changeset() {
    let mut mem = Mem::new(1);
    mem.set(AttribPair { attrib_num: 4, attrib_str: "color:red".to_string() });
    mem.set(AttribPair { attrib_num: 5, attrib_str: "color:black".to_string() });
    const S: &str = "Z:196>1|5=97=31*4*5+1$x";
    let b: Vec<u8> = S.as_bytes().iter().map(|item| item.clone()).collect();
    let cs = Changeset::from_iter(&mem, &b);
    assert_eq!(S, cs.unwrap_or_else(|e| panic!("{:?}", e)).to_string());
}

#[test]
fn round_trip_plain_texts() {
    let mem = pool();
    for s in ["Z:0>0|0$", "Z:3>1|0=1+1$X", "Z:4<1|0=2-1$", "Z:10<3|2=2*4=3-3*5+0$", "Z:5>2|1*4+2$ab"] {
        assert_eq!(s, parse(&mem, s).to_string());
    }
}

#[test]
fn parse_normalises_selectors_and_sign() {
    let mem = pool();
    assert_eq!("Z:4<1|0*4*5=2-1$", parse(&mem, "Z:4-1|0*5*4*5=2-1$").to_string());
}

#[test]
fn header_and_body_deltas_agree() {
    let mem = pool();
    let cs = parse(&mem, "Z:196>1|5=97=31*4*5+1$x");
    assert_eq!(cs.head.char_delta(), 1);
    assert_eq!(cs.body.char_delta(), 1);
    assert_eq!(cs.head.old_length, 196);
    assert_eq!(cs.head.line_marker, 5);
    assert_eq!(cs.body.ops.len(), 3);
    assert_eq!(cs.body.ops[2].attribs, vec![4, 5]);
}

#[test]
fn delta_mismatch_is_validation_error() {
    let mem = pool();
    assert_eq!(Changeset::from_iter(&mem, b"Z:5>2|0+1$x").unwrap_err(), ChangesetError::Validation);
}

#[test]
fn over_long_ops_are_validation_error() {
    let mem = pool();
    assert_eq!(Changeset::from_iter(&mem, b"Z:2>0|0=3$").unwrap_err(), ChangesetError::Validation);
}

#[test]
fn malformed_inputs_are_format_errors() {
    let mem = pool();
    for s in [
        "", "Y:1>0|0$", "Z:>0|0$", "Z:1?0|0$", "Z:1>0$", "Z:1>0|0=1", "Z:3>0|0?1$",
        "Z:3>0|0=x$", "Z:3<1|0*4-1$", "Z:3>2|0+2$x", "Z:3>0|0*4$", "Z:99999999999>0|0$",
        "Z:03>0|0$", "Z:3>0|0=01$", "Z:196>1|5=97?31*4*5+1$x", "Z:196>1|5=x97=31*4*5+1$x",
        "Z:196>|5=97=31*4*5+1$x", "Z:196>1|5=97=31*4*5+1$xy",
    ] {
        assert_eq!(Changeset::from_iter(&mem, s.as_bytes()).unwrap_err(), ChangesetError::Format, "{}", s);
    }
}

#[test]
fn keep_past_old_length_is_validation_error() {
    let mem = pool();
    assert_eq!(Changeset::from_iter(&mem, b"Z:5>1|0=9+1$x").unwrap_err(), ChangesetError::Validation);
    assert_eq!(Changeset::from_iter(&mem, b"Z:0<1|0-1$").unwrap_err(), ChangesetError::Validation);
}

#[test]
fn unknown_attribute_is_pool_lookup_error() {
    let mem = pool();
    assert_eq!(Changeset::from_iter(&mem, b"Z:3>0|0*7=1$").unwrap_err(), ChangesetError::PoolLookup);
}

#[test]
fn pool_interns_once() {
    let mut mem = Mem::new(0);
    let a = mem.get_or_insert("bold:true".to_string());
    let b = mem.get_or_insert("color:red".to_string());
    let c = mem.get_or_insert("bold:true".to_string());
    assert_eq!(a, 0);
    assert_eq!(b, 1);
    assert_eq!(a, c);
    assert_eq!(mem.lookup(0).unwrap(), "bold:true");
    assert_eq!(mem.lookup(1).unwrap(), "color:red");
    assert!(mem.lookup(2).is_none());
    assert!(mem.contains(1));
    assert!(!mem.contains(2));
}

#[test]
fn pool_set_refuses_conflicts() {
    let mut mem = pool();
    assert!(!mem.set(AttribPair { attrib_num: 4, attrib_str: "color:blue".to_string() }));
    assert!(!mem.set(AttribPair { attrib_num: 9, attrib_str: "color:red".to_string() }));
    assert!(mem.set(AttribPair { attrib_num: 4, attrib_str: "color:red".to_string() }));
    assert_eq!(mem.lookup(4).unwrap(), "color:red");
    assert_eq!(mem.get_or_insert("bold:true".to_string()), 6);
}

#[test]
fn compose_sequential_edits() {
    let mem = pool();
    let a = parse(&mem, "Z:3>1|0=1+1$X");
    let b = parse(&mem, "Z:4<1|0=2-1$");
    let c = compose(&mem, &a, &b).unwrap();
    assert_eq!(c.to_string(), "Z:3>0|0=1+1-1$X");
}

#[test]
fn compose_with_identity_keeps_changeset() {
    let mem = pool();
    for (s, t) in [
        ("Z:3>1|0=1+1$X", "Z:3>1|0=1+1$X"),
        ("Z:196>1|5=97=31*4*5+1$x", "Z:196>1|5=128*4*5+1$x"),
        ("Z:4<1|0=2-1$", "Z:4<1|0=2-1$"),
    ] {
        let a = parse(&mem, s);
        let id = Changeset::identity((a.head.old_length as i64 + a.head.char_delta) as u32);
        let c = compose(&mem, &a, &id).unwrap();
        assert_eq!(c.to_string(), t);
    }
}

#[test]
fn compose_cancels_inserted_then_deleted_text() {
    let mem = pool();
    let a = parse(&mem, "Z:2>2|0=1+2$XY");
    let b = parse(&mem, "Z:4<2|0=1-2$");
    assert_eq!(compose(&mem, &a, &b).unwrap().to_string(), "Z:2>0|0$");
}

#[test]
fn compose_overrides_attribute_of_same_key() {
    let mut mem = pool();
    let bold = mem.get_or_insert("bold:true".to_string());
    assert_eq!(bold, 6);
    let a = parse(&mem, "Z:2>1|0*4*6+1$x");
    let b = parse(&mem, "Z:3>0|0*5=1$");
    assert_eq!(compose(&mem, &a, &b).unwrap().to_string(), "Z:2>1|0*5*6+1$x");
}

#[test]
fn compose_method_replaces_receiver() {
    let mem = pool();
    let mut a = parse(&mem, "Z:3>1|0=1+1$X");
    let b = parse(&mem, "Z:4<1|0=2-1$");
    a.compose(&mem, &b).unwrap();
    assert_eq!(a.to_string(), "Z:3>0|0=1+1-1$X");
}

#[test]
fn compose_is_associative_on_example() {
    let mem = pool();
    let a = parse(&mem, "Z:3>1|0=1+1$X");
    let b = parse(&mem, "Z:4<1|0=2-1$");
    let c = parse(&mem, "Z:3>2|0=3+2$YZ");
    let left = compose(&mem, &compose(&mem, &a, &b).unwrap(), &c).unwrap();
    let right = compose(&mem, &a, &compose(&mem, &b, &c).unwrap()).unwrap();
    assert_eq!(left.to_string(), right.to_string());
    assert_eq!(left.to_string(), "Z:3>2|0=1+1-1=1+2$XYZ");
}

#[test]
fn compose_length_mismatch_is_domain_error() {
    let mem = pool();
    let a = parse(&mem, "Z:3>1|0=1+1$X");
    let b = parse(&mem, "Z:3>0|0$");
    assert_eq!(compose(&mem, &a, &b).unwrap_err(), ChangesetError::Domain);
    let mut a2 = parse(&mem, "Z:3>1|0=1+1$X");
    assert_eq!(a2.compose(&mem, &b).unwrap_err(), ChangesetError::Domain);
    assert_eq!(a2.to_string(), "Z:3>1|0=1+1$X");
}

#[test]
fn follow_rebases_over_insert() {
    let mem = pool();
    let a = parse(&mem, "Z:4>1|0=1+1$X");
    let b = parse(&mem, "Z:4<1|0=2-1$");
    assert_eq!(follow(&mem, &a, &b).unwrap().to_string(), "Z:5<1|0=3-1$");
    assert_eq!(a.follow(&mem, &b).unwrap().to_string(), "Z:5<1|0=3-1$");
    assert_eq!(follow(&mem, &b, &a).unwrap().to_string(), "Z:3>1|0=1+1$X");
}

#[test]
fn follow_converges_for_disjoint_edits() {
    let mem = pool();
    let a = parse(&mem, "Z:4>1|0=1+1$X");
    let b = parse(&mem, "Z:4<1|0=2-1$");
    let ab = compose(&mem, &a, &follow(&mem, &a, &b).unwrap()).unwrap();
    let ba = compose(&mem, &b, &follow(&mem, &b, &a).unwrap()).unwrap();
    assert_eq!(ab.to_string(), ba.to_string());
    assert_eq!(ab.to_string(), "Z:4>0|0=1+1=1-1$X");
}

#[test]
fn follow_puts_first_argument_insert_first() {
    let mem = pool();
    let a = parse(&mem, "Z:2>1|0=1+1$A");
    let b = parse(&mem, "Z:2>1|0=1+1$B");
    assert_eq!(follow(&mem, &a, &b).unwrap().to_string(), "Z:3>1|0=2+1$B");
    assert_eq!(follow(&mem, &b, &a).unwrap().to_string(), "Z:3>1|0=2+1$A");
}

#[test]
fn follow_drops_delete_of_deleted_text() {
    let mem = pool();
    let a = parse(&mem, "Z:4<2|0=1-2$");
    let b = parse(&mem, "Z:4<2|0=2-2$");
    assert_eq!(follow(&mem, &a, &b).unwrap().to_string(), "Z:2<1|0=1-1$");
}

#[test]
fn follow_base_mismatch_is_domain_error() {
    let mem = pool();
    let a = parse(&mem, "Z:4>1|0=1+1$X");
    let b = parse(&mem, "Z:3>0|0$");
    assert_eq!(follow(&mem, &a, &b).unwrap_err(), ChangesetError::Domain);
}

#[test]
fn identity_changeset_text() {
    assert_eq!(Changeset::identity(5).to_string(), "Z:5>0|0=5$");
    assert_eq!(Changeset::identity(0).to_string(), "Z:0>0|0$");
}

fn output_side_length(cs: &Changeset) -> i64 {
    let mut written: i64 = 0;
    let mut read: i64 = 0;
    for op in &cs.body.ops {
        match op.kind {
            OpKind::Keep => {
                written += op.count as i64;
                read += op.count as i64;
            }
            OpKind::Insert => written += op.count as i64,
            OpKind::Delete => read += op.count as i64,
        }
    }
    written + (cs.head.old_length as i64 - read)
}

#[test]
fn lengths_are_conserved() {
    let mem = pool();
    let a = parse(&mem, "Z:196>1|5=97=31*4*5+1$x");
    assert_eq!(a.head.old_length as i64 + a.head.char_delta, 197);
    assert_eq!(output_side_length(&a), 197);
    let b = parse(&mem, "Z:197<10|0=5-10+0$");
    let c = compose(&mem, &a, &b).unwrap();
    assert_eq!(c.head.old_length as i64 + c.head.char_delta, 187);
    assert_eq!(output_side_length(&c), 187);
    let f = follow(&mem, &a, &parse(&mem, "Z:196<6|0-6$")).unwrap();
    assert!(f.head.old_length as i64 + f.head.char_delta >= 0);
    assert_eq!(f.head.old_length, 197);
    assert_eq!(output_side_length(&f), 191);
}
