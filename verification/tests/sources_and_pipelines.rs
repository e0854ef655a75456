use floe_executor::encoding::{decode_all_encoded_row_scalars, EncodedRowScalar};
use floe_executor::name_map::NameMap;
use floe_executor::nexmark_sources::{
    encode_auction_key, encode_bid_key, encode_person_key, Auction, Bid, KeyError, NumberName,
    Person,
};
use floe_executor::plan_to_pipeline::{
    CircuitNode, CircuitPlan, NodeKind, PipelineError, PipelineFromCircuit, PipelineParts,
};

fn bid(price: usize, date_time: u64) -> Bid {
    Bid {
        auction: 1,
        bidder: 2,
        price,
        channel: "Google".to_string(),
        url: "https://x".to_string(),
        date_time,
        extra: "e".to_string(),
    }
}

fn text(value: &str) -> Option<EncodedRowScalar> {
    Some(EncodedRowScalar::Utf8(value.to_string()))
}

#[test]
fn a_bid_is_read_back_from_its_key() {
    let key = encode_bid_key(&bid(300, 4)).expect("encode");
    assert_eq!(
        decode_all_encoded_row_scalars(&key),
        Ok(vec![
            Some(EncodedRowScalar::Int64(1)),
            Some(EncodedRowScalar::Int64(2)),
            Some(EncodedRowScalar::Int64(300)),
            text("Google"),
            text("https://x"),
            Some(EncodedRowScalar::TimestampMillis(4)),
            text("e"),
        ])
    );
}

#[test]
fn persons_and_auctions_have_keys() {
    let person = Person {
        id: 9,
        name: "Ada".to_string(),
        email_address: "a@b".to_string(),
        credit_card: "1".to_string(),
        city: "X".to_string(),
        state: "Y".to_string(),
        date_time: 5,
        extra: "".to_string(),
    };
    let decoded = decode_all_encoded_row_scalars(&encode_person_key(&person).expect("encode"))
        .expect("decode");
    assert_eq!(decoded.len(), 8);
    assert_eq!(decoded[0], Some(EncodedRowScalar::Int64(9)));
    assert_eq!(decoded[1], text("Ada"));
    let auction = Auction {
        id: 1,
        item_name: "i".to_string(),
        description: "d".to_string(),
        initial_bid: 10,
        reserve: 20,
        date_time: 5,
        expires: 6,
        seller: 7,
        category: 8,
        extra: "".to_string(),
    };
    let decoded = decode_all_encoded_row_scalars(&encode_auction_key(&auction).expect("encode"))
        .expect("decode");
    assert_eq!(decoded.len(), 10);
    assert_eq!(decoded[6], Some(EncodedRowScalar::Int64(8)));
    assert_eq!(decoded[7], Some(EncodedRowScalar::TimestampMillis(6)));
}

#[test]
fn numbers_that_do_not_fit_have_no_key() {
    assert_eq!(
        encode_bid_key(&bid(usize::MAX, 4)),
        Err(KeyError::NumberTooLarge(NumberName::Price, usize::MAX))
    );
    assert_eq!(
        encode_bid_key(&bid(1, u64::MAX)),
        Err(KeyError::TimeTooLarge(u64::MAX))
    );
}

fn node(id: usize, kind: NodeKind, inputs: Vec<usize>) -> CircuitNode {
    CircuitNode { id, kind, inputs }
}

#[test]
fn a_pipeline_goes_from_the_source_to_the_sink() {
    let plan = CircuitPlan {
        root: 2,
        nodes: vec![
            node(0, NodeKind::Source("bid".to_string()), vec![]),
            node(1, NodeKind::Other, vec![0]),
            node(2, NodeKind::Sink("mv_bid".to_string()), vec![1]),
        ],
    };
    let pipeline = PipelineFromCircuit { plan: &plan };
    assert_eq!(
        pipeline.pipeline_parts("mv_bid"),
        Ok(PipelineParts {
            table: "bid".to_string(),
            sink_namespace: "mv/mv_bid".to_string(),
        })
    );
    assert_eq!(
        pipeline.pipeline_parts("mv_other"),
        Err(PipelineError::SinkNotFound)
    );
}

#[test]
fn a_pipeline_without_a_source_says_why() {
    let parts = |nodes: Vec<CircuitNode>| {
        let plan = CircuitPlan { root: 0, nodes };
        PipelineFromCircuit { plan: &plan }
            .pipeline_parts("mv")
            .expect_err("no source")
    };
    let sink = |inputs: Vec<usize>| node(0, NodeKind::Sink("mv".to_string()), inputs);
    assert_eq!(parts(vec![sink(vec![])]), PipelineError::NoInput);
    assert_eq!(parts(vec![sink(vec![5])]), PipelineError::MissingNode);
    assert_eq!(
        parts(vec![sink(vec![1]), node(1, NodeKind::Other, vec![1])]),
        PipelineError::Circle
    );
}

#[test]
fn names_are_unique() {
    let mut names: NameMap<u8> = NameMap::new();
    assert!(!names.insert("a".to_string(), 1));
    assert!(names.insert("a".to_string(), 2));
    assert_eq!(names.len(), 1);
    assert_eq!(names.get("a"), Some(&2));
    assert_eq!(names.entry(0), ("a", &2));
    assert_eq!(names.remove("b"), None);
    assert_eq!(names.remove("a"), Some(2));
    assert!(!names.contains("a"));
    names.insert("c".to_string(), 3);
    names.clear();
    assert_eq!(names.len(), 0);
}
