use leios_tools::behaviour::outbound::{Outbound, OutboundDecision, OwnedOutbound};
use leios_tools::behaviour::{Behaviour, HonestBehaviour};
use leios_tools::block::BlockBody;
use leios_tools::header::{blake2b_256, wrap_header, WrappedHeader};
use leios_tools::peer::blockfetch::{
    lookup_variant_body, variant_block, variant_wanted, BfAction, BfEvent, BfMessage,
    BlockFetchServer,
};
use leios_tools::peer::chainsync::{
    carry_out, header_artefact, send_roll_forward, ChainReading, ChainSyncServer, CsAction,
    CsEvent, CsMessage, CsPhase, PendingBlock,
};
use leios_tools::peer::keepalive::{KaAction, KaEvent, KaExit, KaMessage, KeepAliveServer};
use leios_tools::peer::leios_fetch::{LeiosFetchServer, LfAction, LfEvent, LfMessage};
use leios_tools::peer::leios_notify::{
    first_deliverable, notification_to_ln_msg, LeiosNotification, LeiosNotifyServer, LnAction,
    LnEvent, LnMessage, NotificationEntry,
};
use leios_tools::peer::peersharing::{PeerSharingServer, PsAction, PsEvent, PsMessage};
use leios_tools::peer::txsubmission::{
    TsAction, TsEvent, TsMessage, TsPhase, TxIdAndSize, TxSubmissionServer,
};
use leios_tools::types::{PeerId, Point, Tip};
use std::collections::BTreeMap;

fn make_point(slot: u64) -> Point {
    Point::Specific { slot, hash: [slot as u8; 32] }
}

fn make_header(slot: u64) -> WrappedHeader {
    let mut buf = Vec::new();
    minicbor::encode([slot], &mut buf).unwrap();
    WrappedHeader::opaque(buf)
}

fn make_body(slot: u64) -> BlockBody {
    let mut buf = Vec::new();
    minicbor::encode([slot], &mut buf).unwrap();
    BlockBody::opaque(buf)
}

fn make_tip(slot: u64) -> Tip {
    Tip { point: make_point(slot), block_no: slot }
}

/// A chain of blocks numbered by slot, from 1 on.
struct Chain {
    slots: Vec<u64>,
    rollback_target: Option<Point>,
}

impl Chain {
    fn tip(&self) -> Tip {
        make_tip(*self.slots.last().unwrap())
    }

    fn index_of(&self, point: &Point) -> Option<usize> {
        self.slots.iter().position(|s| make_point(*s) == *point)
    }

    fn find_intersection(&self, points: &[Point]) -> Option<(Point, Tip)> {
        points
            .iter()
            .find(|p| **p == Point::Origin || self.index_of(p).is_some())
            .map(|p| (*p, self.tip()))
    }

    fn read(&self, index: Option<usize>, point: Option<Point>) -> ChainReading {
        let valid = match (index, point) {
            (Some(i), Some(p)) => self.slots.get(i).map(|s| make_point(*s)) == Some(p),
            _ => true,
        };
        let next = index.map_or(0, |i| i + 1);
        ChainReading {
            valid,
            rollback_target: self.rollback_target,
            pending: self.slots.get(next).map(|s| PendingBlock {
                point: make_point(*s),
                header: make_header(*s),
            }),
            tip: self.tip(),
        }
    }
}

/// Runs a responder until it waits for a message, a change of the chain, or
/// stops. Gives what was sent.
fn drive(
    mut server: ChainSyncServer,
    chain: &Chain,
    event: CsEvent,
) -> (ChainSyncServer, Vec<CsMessage>, CsAction) {
    let mut sent = Vec::new();
    let mut event = event;
    loop {
        let (after, step) = server.step(event);
        server = after;
        sent.extend(step.send);
        event = match step.next {
            CsAction::FindIntersection(points) => CsEvent::Intersection {
                found: chain.find_intersection(&points),
                tip: chain.tip(),
            },
            CsAction::ReadChain { index, point } => CsEvent::Reading(chain.read(index, point)),
            CsAction::Locate(point) => CsEvent::Located(chain.index_of(&point)),
            CsAction::Forward { header, point, tip } => {
                let none: Option<&mut HonestBehaviour> = None;
                sent.extend(send_roll_forward(header, &point, tip, PeerId(0), none));
                return (server, sent, CsAction::Receive);
            }
            other => return (server, sent, other),
        };
    }
}

#[test]
fn chainsync_server_responds_to_intersection_and_roll_forward() {
    let chain = Chain { slots: vec![1, 2, 3], rollback_target: None };
    let header_1 = make_header(1);
    let server = ChainSyncServer::new();
    let request = CsMessage::FindIntersect { points: vec![Point::Origin] };
    let (server, sent, next) = drive(server, &chain, CsEvent::Received(request));
    assert_eq!(next, CsAction::Receive);
    match &sent[..] {
        [CsMessage::IntersectFound { point, tip }] => {
            assert_eq!(*point, Point::Origin);
            assert_eq!(tip.block_no, 3);
        }
        other => panic!("unexpected {other:?}"),
    }

    let (server, sent, _) = drive(server, &chain, CsEvent::Received(CsMessage::RequestNext));
    match &sent[..] {
        [CsMessage::RollForward { header, tip }] => {
            assert_eq!(header.raw, header_1.raw);
            assert_eq!(tip.block_no, 3);
        }
        other => panic!("expected RollForward, got {other:?}"),
    }

    let (_, sent, next) = drive(server, &chain, CsEvent::Received(CsMessage::Done));
    assert!(sent.is_empty());
    assert_eq!(next, CsAction::Stop);
}

#[test]
fn chainsync_unknown_points_leave_the_position() {
    let chain = Chain { slots: vec![1, 2, 3], rollback_target: None };
    let request = |slot| CsEvent::Received(CsMessage::FindIntersect { points: vec![make_point(slot)] });
    let (server, sent, _) = drive(ChainSyncServer::new(), &chain, request(2));
    assert_eq!(
        sent,
        vec![CsMessage::IntersectFound { point: make_point(2), tip: make_tip(3) }]
    );
    assert_eq!(server.read_index, Some(1));
    let (after, sent, _) = drive(server.clone(), &chain, request(99));
    assert_eq!(sent, vec![CsMessage::IntersectNotFound { tip: make_tip(3) }]);
    assert_eq!(after, server);
}

#[test]
fn chainsync_waits_once_and_then_forwards() {
    let mut chain = Chain { slots: vec![1], rollback_target: None };
    let next = || CsEvent::Received(CsMessage::RequestNext);
    let (server, sent, _) = drive(ChainSyncServer::new(), &chain, next());
    assert_eq!(sent.len(), 1);
    let (server, sent, action) = drive(server, &chain, next());
    assert_eq!(sent, vec![CsMessage::AwaitReply]);
    assert_eq!(action, CsAction::AwaitChange);
    let (server, sent, action) = drive(server, &chain, CsEvent::Changed);
    assert!(sent.is_empty());
    assert_eq!(action, CsAction::AwaitChange);
    chain.slots.push(2);
    let (server, sent, action) = drive(server, &chain, CsEvent::Changed);
    assert!(matches!(&sent[..], [CsMessage::RollForward { .. }]));
    assert_eq!(action, CsAction::Receive);
    assert_eq!(server.read_point, Some(make_point(2)));
    assert_eq!(server.read_index, Some(1));
}

#[test]
fn chainsync_closed_chain_ends_the_wait() {
    let chain = Chain { slots: vec![1], rollback_target: None };
    let next = || CsEvent::Received(CsMessage::RequestNext);
    let (server, _, _) = drive(ChainSyncServer::new(), &chain, next());
    let (server, _, _) = drive(server, &chain, next());
    let (server, sent, action) = drive(server, &chain, CsEvent::Closed);
    assert!(sent.is_empty());
    assert_eq!(action, CsAction::Stop);
    assert_eq!(server.phase, CsPhase::Stopped);
    let (after, step) = server.clone().step(next());
    assert_eq!(after, server);
    assert_eq!(step.send, None);
}

#[test]
fn chainsync_lost_position_is_rolled_back() {
    let mut chain = Chain { slots: vec![1, 2, 3], rollback_target: None };
    let request = CsMessage::FindIntersect { points: vec![make_point(3)] };
    let (server, _, _) = drive(ChainSyncServer::new(), &chain, CsEvent::Received(request));
    chain.slots = vec![1, 12, 13];
    chain.rollback_target = Some(make_point(1));
    let next = || CsEvent::Received(CsMessage::RequestNext);
    let (server, sent, _) = drive(server, &chain, next());
    assert_eq!(
        sent,
        vec![CsMessage::RollBackward { point: make_point(1), tip: make_tip(13) }]
    );
    assert_eq!(server.read_index, Some(0));
    let (_, sent, _) = drive(server, &chain, next());
    match &sent[..] {
        [CsMessage::RollForward { header, .. }] => assert_eq!(header.raw, make_header(12).raw),
        other => panic!("unexpected {other:?}"),
    }
}

#[test]
fn chainsync_lost_position_without_target_goes_to_origin() {
    let mut chain = Chain { slots: vec![1, 2], rollback_target: None };
    let request = CsMessage::FindIntersect { points: vec![make_point(2)] };
    let (server, _, _) = drive(ChainSyncServer::new(), &chain, CsEvent::Received(request));
    chain.slots = vec![1];
    let (server, sent, _) = drive(server, &chain, CsEvent::Received(CsMessage::RequestNext));
    assert_eq!(
        sent,
        vec![CsMessage::RollBackward { point: Point::Origin, tip: make_tip(1) }]
    );
    assert_eq!(server.read_point, Some(Point::Origin));
    assert_eq!(server.read_index, None);
}

#[test]
fn chainsync_rollback_wakes_a_waiting_peer() {
    let mut chain = Chain { slots: vec![1, 2], rollback_target: None };
    let request = CsMessage::FindIntersect { points: vec![make_point(2)] };
    let (server, _, _) = drive(ChainSyncServer::new(), &chain, CsEvent::Received(request));
    let (server, sent, _) = drive(server, &chain, CsEvent::Received(CsMessage::RequestNext));
    assert_eq!(sent, vec![CsMessage::AwaitReply]);
    chain.slots = vec![1];
    chain.rollback_target = Some(make_point(1));
    let (_, sent, action) = drive(server, &chain, CsEvent::Changed);
    assert_eq!(
        sent,
        vec![CsMessage::RollBackward { point: make_point(1), tip: make_tip(1) }]
    );
    assert_eq!(action, CsAction::Receive);
}

#[test]
fn chainsync_stops_on_what_a_client_may_not_send() {
    let chain = Chain { slots: vec![1], rollback_target: None };
    for event in [CsEvent::Received(CsMessage::AwaitReply), CsEvent::RecvFailed, CsEvent::Changed] {
        let (_, sent, action) = drive(ChainSyncServer::new(), &chain, event);
        assert!(sent.is_empty());
        assert_eq!(action, CsAction::Stop);
    }
}

/// The bytes of a readable header.
fn readable_header(slot: u64) -> Vec<u8> {
    let mut inner = Vec::new();
    let mut e = minicbor::Encoder::new(&mut inner);
    e.array(2).unwrap().array(10).unwrap().u64(1).unwrap().u64(slot).unwrap();
    wrap_header(7, &inner)
}

#[test]
fn roll_forward_follows_each_decision() {
    let header = make_header(5);
    let tip = make_tip(9);
    let original = CsMessage::RollForward { header: header.clone(), tip };
    let sent = |d| carry_out(header.clone(), tip, d);
    assert_eq!(sent(OutboundDecision::Send), vec![original.clone()]);
    assert!(sent(OutboundDecision::Drop).is_empty());

    let bytes = readable_header(77);
    let other = OwnedOutbound::RbHeader { slot: 5, header: bytes.clone() };
    let forward = CsMessage::RollForward {
        header: WrappedHeader::new(bytes.clone()),
        tip: Tip {
            point: Point::Specific { slot: 77, hash: blake2b_256(&bytes) },
            block_no: 9,
        },
    };
    assert_eq!(sent(OutboundDecision::Replace(other.clone())), vec![forward.clone()]);

    let odd = OwnedOutbound::RbHeader { slot: 5, header: vec![1, 2, 3] };
    let odd_forward = CsMessage::RollForward { header: WrappedHeader::new(vec![1, 2, 3]), tip };
    assert_eq!(sent(OutboundDecision::Replace(odd.clone())), vec![odd_forward.clone()]);

    let offer = OwnedOutbound::LeiosBlockTxsOffer { point: make_point(1), source: None };
    assert!(sent(OutboundDecision::Replace(offer.clone())).is_empty());
    assert_eq!(
        sent(OutboundDecision::Augment(vec![other, offer, odd])),
        vec![original.clone(), forward, odd_forward]
    );
    assert_eq!(sent(OutboundDecision::Augment(vec![])), vec![original]);
}

/// Drops headers of even slots.
struct DropEven {
    seen: Vec<(u64, u64, Vec<u8>)>,
}

impl Behaviour for DropEven {
    fn name(&self) -> &'static str {
        "drop-even"
    }

    fn transform_outbound(&mut self, peer: PeerId, out: Outbound<'_>) -> OutboundDecision {
        match out {
            Outbound::RbHeader { slot, header } => {
                self.seen.push((peer.0, slot, header.to_vec()));
                if slot % 2 == 0 {
                    OutboundDecision::Drop
                } else {
                    OutboundDecision::Send
                }
            }
            _ => OutboundDecision::Send,
        }
    }

    fn find_variant_body(&self, slot: u64, hash: &[u8; 32]) -> Option<Vec<u8>> {
        if slot == 8 && hash == &[8; 32] {
            Some(vec![0x01])
        } else {
            None
        }
    }
}

#[test]
fn behaviour_decides_on_each_header() {
    let mut b = DropEven { seen: Vec::new() };
    let (h, tip) = (make_header(4), make_tip(4));
    assert!(send_roll_forward(h.clone(), &make_point(4), tip, PeerId(3), Some(&mut b)).is_empty());
    assert_eq!(
        send_roll_forward(h.clone(), &make_point(5), tip, PeerId(3), Some(&mut b)).len(),
        1
    );
    assert!(send_roll_forward(h.clone(), &Point::Origin, tip, PeerId(3), Some(&mut b)).is_empty());
    let seen: Vec<(u64, u64)> = b.seen.iter().map(|s| (s.0, s.1)).collect();
    assert_eq!(seen, vec![(3, 4), (3, 5), (3, 0)]);
    assert_eq!(b.seen[0].2, h.raw);
    assert!(matches!(
        header_artefact(&h, &make_point(6)),
        Outbound::RbHeader { slot: 6, .. }
    ));
}

#[test]
fn blockfetch_server_streams_blocks() {
    let mut server = BlockFetchServer::new();
    let (from, to) = (make_point(1), make_point(3));
    let step = server.step(BfEvent::Received(BfMessage::RequestRange { from, to }));
    assert_eq!(step.next, BfAction::ReadRange { from, to });
    assert!(step.send.is_empty());
    let bodies = vec![make_body(1), make_body(2), make_body(3)];
    let step = server.step(BfEvent::Range(bodies.clone()));
    assert_eq!(step.next, BfAction::Receive);
    assert_eq!(step.send.len(), 5);
    assert_eq!(step.send[0], BfMessage::StartBatch);
    assert_eq!(step.send[4], BfMessage::BatchDone);
    let received: Vec<&BlockBody> = step
        .send
        .iter()
        .filter_map(|m| match m {
            BfMessage::Block { body } => Some(body),
            _ => None,
        })
        .collect();
    assert_eq!(received.len(), 3);
    assert_eq!(received[0].raw, bodies[0].raw);
    assert_eq!(received[2].raw, bodies[2].raw);
    let step = server.step(BfEvent::Received(BfMessage::ClientDone));
    assert_eq!(step.next, BfAction::Stop);
}

#[test]
fn blockfetch_falls_back_to_a_variant() {
    let b = DropEven { seen: Vec::new() };
    let (from, to) = (make_point(8), make_point(8));
    let mut server = BlockFetchServer::new();
    server.step(BfEvent::Received(BfMessage::RequestRange { from, to }));
    let step = server.step(BfEvent::Range(vec![]));
    assert_eq!(step.next, BfAction::LookUpVariant { from, to });
    let body = lookup_variant_body(Some(&b), &from, &to);
    assert_eq!(body.as_ref().unwrap().raw, vec![0x01]);
    let step = server.step(BfEvent::Variant(body.clone()));
    assert_eq!(
        step.send,
        vec![
            BfMessage::StartBatch,
            BfMessage::Block { body: body.unwrap() },
            BfMessage::BatchDone
        ]
    );
}

#[test]
fn blockfetch_says_when_there_is_nothing() {
    let b = DropEven { seen: Vec::new() };
    assert!(lookup_variant_body(Some(&b), &make_point(8), &make_point(9)).is_none());
    assert!(lookup_variant_body(Some(&b), &make_point(9), &make_point(9)).is_none());
    assert!(lookup_variant_body(Some(&b), &Point::Origin, &Point::Origin).is_none());
    let none: Option<&DropEven> = None;
    assert!(lookup_variant_body(none, &make_point(8), &make_point(8)).is_none());
    assert_eq!(variant_wanted(&make_point(8), &make_point(8)), Some((8, [8; 32])));
    assert_eq!(variant_wanted(&make_point(8), &make_point(9)), None);
    assert_eq!(variant_block(None), None);
    assert_eq!(variant_block(Some(vec![5])), Some(BlockBody::new(vec![5])));

    let (from, to) = (make_point(1), make_point(2));
    let mut server = BlockFetchServer::new();
    server.step(BfEvent::Received(BfMessage::RequestRange { from, to }));
    server.step(BfEvent::Range(vec![]));
    let step = server.step(BfEvent::Variant(None));
    assert_eq!(step.send, vec![BfMessage::NoBlocks]);
    assert_eq!(step.next, BfAction::Receive);
    assert_eq!(server.step(BfEvent::RecvFailed).next, BfAction::Stop);
}

#[test]
fn keepalive_server_echoes_cookie() {
    let (mut server, first) = KeepAliveServer::new();
    assert_eq!(first, KaAction::Receive { timed: false });
    assert_eq!(
        server.step(KaEvent::Received(KaMessage::KeepAlive { cookie: 42 })),
        KaAction::Send(KaMessage::KeepAliveResponse { cookie: 42 })
    );
    assert_eq!(server.msg_count, 1);
    assert_eq!(server.step(KaEvent::Sent), KaAction::Receive { timed: true });
    assert_eq!(
        server.step(KaEvent::Received(KaMessage::Done)),
        KaAction::Stop(KaExit::ClientDone)
    );
}

#[test]
fn keepalive_exit_reasons() {
    let run = |events: &[KaEvent]| {
        let (mut server, mut action) = KeepAliveServer::new();
        for e in events {
            action = server.step(*e);
        }
        match action {
            KaAction::Stop(reason) => reason.as_str(),
            other => panic!("still running: {other:?}"),
        }
    };
    let ping = KaEvent::Received(KaMessage::KeepAlive { cookie: 1 });
    assert_eq!(run(&[ping, KaEvent::SendFailed]), "send-error");
    assert_eq!(run(&[KaEvent::Received(KaMessage::Done)]), "client-done");
    assert_eq!(
        run(&[KaEvent::Received(KaMessage::KeepAliveResponse { cookie: 1 })]),
        "unexpected-message"
    );
    assert_eq!(run(&[ping, KaEvent::Sent, KaEvent::RecvFailed]), "recv-error");
    assert_eq!(run(&[KaEvent::RecvFailed, ping]), "recv-error");
}

fn ids(n: usize) -> TsEvent {
    let tx_ids = (0..n)
        .map(|i| TxIdAndSize { tx_id: vec![i as u8, (i >> 8) as u8], size: 10 })
        .collect();
    TsEvent::Received(TsMessage::ReplyTxIds { tx_ids })
}

#[test]
fn txsubmission_pulls_and_acknowledges() {
    let mut server = TxSubmissionServer::new(10);
    let step = server.step(TsEvent::Received(TsMessage::Init));
    assert_eq!(step.send, Some(TsMessage::RequestTxIdsBlocking { ack: 0, req: 10 }));
    let step = server.step(ids(3));
    assert_eq!(
        step.send,
        Some(TsMessage::RequestTxs { tx_ids: vec![vec![0, 0], vec![1, 0], vec![2, 0]] })
    );
    assert!(step.deliver.is_empty());
    let txs = vec![vec![1], vec![2]];
    let step = server.step(TsEvent::Received(TsMessage::ReplyTxs { txs: txs.clone() }));
    assert_eq!(step.deliver, txs);
    assert_eq!(step.send, Some(TsMessage::RequestTxIdsNonBlocking { ack: 3, req: 10 }));
    let step = server.step(ids(0));
    assert_eq!(step.send, Some(TsMessage::RequestTxIdsBlocking { ack: 0, req: 10 }));
    let step = server.step(ids(1));
    assert_eq!(step.send, Some(TsMessage::RequestTxs { tx_ids: vec![vec![0, 0]] }));
    let step = server.step(TsEvent::Received(TsMessage::ReplyTxs { txs: vec![] }));
    assert_eq!(step.send, Some(TsMessage::RequestTxIdsNonBlocking { ack: 1, req: 10 }));
    let step = server.step(TsEvent::Received(TsMessage::Done));
    assert_eq!(step.next, TsAction::Stop);
}

#[test]
fn txsubmission_stops_where_the_peer_breaks_off() {
    let mut server = TxSubmissionServer::new(5);
    assert_eq!(server.step(ids(1)).next, TsAction::Stop);
    assert_eq!(server.phase, TsPhase::Stopped);

    let mut server = TxSubmissionServer::new(5);
    server.step(TsEvent::Received(TsMessage::Init));
    server.step(ids(0));
    let step = server.step(ids(0));
    assert_eq!(step.next, TsAction::Stop);
    assert_eq!(step.send, None);

    let mut server = TxSubmissionServer::new(5);
    server.step(TsEvent::Received(TsMessage::Init));
    server.step(ids(2));
    assert_eq!(server.step(ids(2)).next, TsAction::Stop);
    assert_eq!(server.step(TsEvent::Received(TsMessage::Init)).next, TsAction::Stop);

    let mut server = TxSubmissionServer::new(5);
    assert_eq!(server.step(TsEvent::RecvFailed).next, TsAction::Stop);
}

#[test]
fn txsubmission_acknowledgement_wraps_at_16_bits() {
    let run = |n: usize| {
        let mut server = TxSubmissionServer::new(5);
        server.step(TsEvent::Received(TsMessage::Init));
        server.step(ids(n));
        server.step(TsEvent::Received(TsMessage::ReplyTxs { txs: vec![] })).send.unwrap()
    };
    assert_eq!(run(65_535), TsMessage::RequestTxIdsNonBlocking { ack: 65_535, req: 5 });
    assert_eq!(run(65_536), TsMessage::RequestTxIdsBlocking { ack: 0, req: 5 });
    assert_eq!(run(65_537), TsMessage::RequestTxIdsNonBlocking { ack: 1, req: 5 });
}

#[test]
fn peersharing_answers_with_what_is_provided() {
    let mut server = PeerSharingServer::new();
    let request = PsEvent::Received(PsMessage::<String>::ShareRequest { amount: 3 });
    assert_eq!(server.step(request).next, PsAction::Provide(3));
    let peers = vec!["a:1".to_string(), "b:2".to_string()];
    let step = server.step(PsEvent::Provided(peers.clone()));
    assert_eq!(step.send, Some(PsMessage::SharePeers { peers }));
    assert_eq!(step.next, PsAction::Receive);
    assert_eq!(server.step(PsEvent::Received(PsMessage::<String>::Done)).next, PsAction::Stop);
    let mut server = PeerSharingServer::new();
    let odd = PsEvent::Received(PsMessage::<u8>::SharePeers { peers: vec![] });
    assert_eq!(server.step(odd).next, PsAction::Stop);
    let mut server = PeerSharingServer::new();
    assert_eq!(server.step(PsEvent::<u8>::RecvFailed).next, PsAction::Stop);
}

/// A queue of offers; the same endorser block is queued once.
struct Queue {
    entries: Vec<NotificationEntry>,
}

impl Queue {
    fn inject_block(&mut self, point: Point, eb_size: u32, source: Option<PeerId>) {
        let notification = LeiosNotification::BlockOffer { point, eb_size };
        if let Some(e) = self.entries.iter_mut().find(|e| e.notification == notification) {
            e.sources.extend(source);
        } else {
            self.entries.push(NotificationEntry {
                notification,
                sources: source.into_iter().collect(),
            });
        }
    }

    /// Runs a responder until it sends, waits or stops.
    fn drive(&self, server: &mut LeiosNotifyServer, event: LnEvent) -> LnAction {
        let mut event = event;
        loop {
            event = match server.step(event) {
                LnAction::Count => LnEvent::Count(self.entries.len()),
                LnAction::ReadFrom(start) => LnEvent::Pending {
                    start,
                    entries: self.entries[start..].to_vec(),
                },
                other => return other,
            };
        }
    }
}

fn request_next() -> LnEvent {
    LnEvent::Received(LnMessage::RequestNext)
}

fn eb(slot: u64, tag: u8) -> Point {
    Point::Specific { slot, hash: [tag; 32] }
}

#[test]
fn leios_notify_server_sends_notifications() {
    let mut queue = Queue { entries: vec![] };
    let mut server = LeiosNotifyServer::new(PeerId(0));
    assert_eq!(queue.drive(&mut server, request_next()), LnAction::AwaitChange);
    queue.inject_block(eb(42, 0xAB), 3, None);
    assert_eq!(
        queue.drive(&mut server, LnEvent::Changed),
        LnAction::Send(LnMessage::BlockOffer { point: eb(42, 0xAB), eb_size: 3 })
    );
    assert_eq!(queue.drive(&mut server, LnEvent::Sent), LnAction::Receive);
    assert_eq!(
        queue.drive(&mut server, LnEvent::Received(LnMessage::Done)),
        LnAction::Stop
    );
}

#[test]
fn leios_notify_server_skips_offers_from_connected_peer() {
    let mut queue = Queue { entries: vec![] };
    let mut server = LeiosNotifyServer::new(PeerId(7));
    queue.drive(&mut server, request_next());
    queue.inject_block(eb(10, 0xAA), 3, Some(PeerId(7)));
    queue.inject_block(eb(11, 0xBB), 4, Some(PeerId(9)));
    assert_eq!(
        queue.drive(&mut server, LnEvent::Changed),
        LnAction::Send(LnMessage::BlockOffer { point: eb(11, 0xBB), eb_size: 4 })
    );
}

#[test]
fn leios_notify_server_skips_offers_with_connected_peer_in_sources() {
    let mut queue = Queue { entries: vec![] };
    let mut server = LeiosNotifyServer::new(PeerId(7));
    queue.drive(&mut server, request_next());
    queue.inject_block(eb(10, 0xAA), 3, Some(PeerId(9)));
    queue.inject_block(eb(10, 0xAA), 3, Some(PeerId(7)));
    queue.inject_block(eb(11, 0xBB), 4, Some(PeerId(13)));
    match queue.drive(&mut server, LnEvent::Changed) {
        LnAction::Send(LnMessage::BlockOffer { point, .. }) => assert_eq!(point, eb(11, 0xBB)),
        other => panic!("expected BlockOffer, got {other:?}"),
    }
}

#[test]
fn leios_notify_server_dedups_same_eb_to_one_offer() {
    let mut queue = Queue { entries: vec![] };
    let mut server = LeiosNotifyServer::new(PeerId(99));
    queue.drive(&mut server, request_next());
    queue.inject_block(eb(21, 0x12), 17, Some(PeerId(1)));
    queue.inject_block(eb(21, 0x12), 17, Some(PeerId(2)));
    queue.inject_block(eb(22, 0x34), 5, Some(PeerId(3)));
    assert_eq!(
        queue.drive(&mut server, LnEvent::Changed),
        LnAction::Send(LnMessage::BlockOffer { point: eb(21, 0x12), eb_size: 17 })
    );
    queue.drive(&mut server, LnEvent::Sent);
    assert_eq!(
        queue.drive(&mut server, request_next()),
        LnAction::Send(LnMessage::BlockOffer { point: eb(22, 0x34), eb_size: 5 })
    );
    queue.drive(&mut server, LnEvent::Sent);
    assert_eq!(queue.drive(&mut server, request_next()), LnAction::AwaitChange);
}

#[test]
fn leios_notify_server_snaps_past_backlog_on_first_request() {
    let mut queue = Queue { entries: vec![] };
    for slot in 1u64..=3 {
        queue.inject_block(eb(slot, slot as u8), 10, Some(PeerId(7)));
    }
    let mut server = LeiosNotifyServer::new(PeerId(42));
    assert_eq!(queue.drive(&mut server, request_next()), LnAction::AwaitChange);
    assert_eq!(server.read_index, Some(3));
    queue.inject_block(eb(100, 0xEE), 20, Some(PeerId(8)));
    assert_eq!(
        queue.drive(&mut server, LnEvent::Changed),
        LnAction::Send(LnMessage::BlockOffer { point: eb(100, 0xEE), eb_size: 20 })
    );
    assert_eq!(server.read_index, Some(4));
}

#[test]
fn leios_notify_ends_with_the_queue_or_the_connection() {
    let queue = Queue { entries: vec![] };
    let mut server = LeiosNotifyServer::new(PeerId(1));
    queue.drive(&mut server, request_next());
    assert_eq!(queue.drive(&mut server, LnEvent::Closed), LnAction::Stop);

    let mut queue = Queue { entries: vec![] };
    let mut server = LeiosNotifyServer::new(PeerId(1));
    queue.drive(&mut server, request_next());
    queue.inject_block(eb(1, 1), 1, None);
    queue.drive(&mut server, LnEvent::Changed);
    assert_eq!(queue.drive(&mut server, LnEvent::SendFailed), LnAction::Stop);

    let mut server = LeiosNotifyServer::new(PeerId(1));
    assert_eq!(queue.drive(&mut server, LnEvent::RecvFailed), LnAction::Stop);
    let mut server = LeiosNotifyServer::new(PeerId(1));
    let odd = LnEvent::Received(LnMessage::BlockTxsOffer { point: eb(1, 1) });
    assert_eq!(queue.drive(&mut server, odd), LnAction::Stop);
}

#[test]
fn each_notification_has_its_message() {
    assert_eq!(
        notification_to_ln_msg(&LeiosNotification::BlockOffer { point: eb(1, 2), eb_size: 9 }),
        LnMessage::BlockOffer { point: eb(1, 2), eb_size: 9 }
    );
    assert_eq!(
        notification_to_ln_msg(&LeiosNotification::BlockTxsOffer { point: eb(1, 2) }),
        LnMessage::BlockTxsOffer { point: eb(1, 2) }
    );
    let votes = vec![vec![1, 2], vec![], vec![3]];
    assert_eq!(
        notification_to_ln_msg(&LeiosNotification::Votes { votes: votes.clone() }),
        LnMessage::Votes { votes }
    );
}

#[test]
fn first_deliverable_skips_sources() {
    let entry = |sources: &[u64]| NotificationEntry {
        notification: LeiosNotification::BlockTxsOffer { point: eb(1, 1) },
        sources: sources.iter().map(|p| PeerId(*p)).collect(),
    };
    let entries = vec![entry(&[1, 2]), entry(&[2]), entry(&[]), entry(&[1])];
    assert_eq!(first_deliverable(&entries, PeerId(2)), Some(2));
    assert_eq!(first_deliverable(&entries, PeerId(1)), Some(1));
    assert_eq!(first_deliverable(&entries, PeerId(3)), Some(0));
    assert_eq!(first_deliverable(&vec![entry(&[5])], PeerId(5)), None);
}

#[test]
fn leios_fetch_server_delivers_block() {
    let point = eb(42, 0xAB);
    let request = LfEvent::Received(LfMessage::BlockRequest { point });
    let (server, action) = LeiosFetchServer::new().step(request);
    assert_eq!(action, LfAction::ReadBlock { slot: 42, hash: [0xAB; 32] });
    let (server, action) = server.step(LfEvent::BlockRead(Some(vec![0xA0])));
    assert_eq!(action, LfAction::Send(LfMessage::Block { block: vec![0xA0] }));
    let (server, action) = server.step(LfEvent::Sent);
    assert_eq!(action, LfAction::Receive);
    let (_, action) = server.step(LfEvent::Received(LfMessage::Done));
    assert_eq!(action, LfAction::Stop);
}

#[test]
fn leios_fetch_disconnects_on_missing_block() {
    let request = LfEvent::Received(LfMessage::BlockRequest { point: eb(99, 0xFF) });
    let (server, _) = LeiosFetchServer::new().step(request);
    let (_, action) = server.step(LfEvent::BlockRead(None));
    assert_eq!(action, LfAction::Stop);
    let origin = LfEvent::Received(LfMessage::BlockRequest { point: Point::Origin });
    let (_, action) = LeiosFetchServer::new().step(origin);
    assert_eq!(action, LfAction::Stop);
}

#[test]
fn leios_fetch_echoes_point_and_bitmap() {
    let point = eb(50, 0x77);
    let bitmap: BTreeMap<u16, u64> = [(0, 0b10_0001), (1, 1 | 1 << 35)].into_iter().collect();
    let request = LfMessage::BlockTxsRequest { point, bitmap: bitmap.clone() };
    let (server, action) = LeiosFetchServer::new().step(LfEvent::Received(request));
    assert_eq!(action, LfAction::ReadBlockTxs { slot: 50, hash: [0x77; 32] });
    assert_eq!(server.wanted_txs(), Some(&bitmap));
    let transactions: Vec<Vec<u8>> =
        [0u8, 5, 64, 99].iter().map(|i| vec![0x43, *i, *i, *i]).collect();
    let (server, action) = server.step(LfEvent::TxsRead(Some(transactions.clone())));
    assert_eq!(
        action,
        LfAction::Send(LfMessage::BlockTxs { point, bitmap, transactions })
    );
    assert_eq!(server.wanted_txs(), None);
    let (_, action) = server.step(LfEvent::SendFailed);
    assert_eq!(action, LfAction::Stop);
}

#[test]
fn leios_fetch_disconnects_on_missing_block_txs() {
    let request = LfMessage::BlockTxsRequest { point: eb(99, 0xFF), bitmap: BTreeMap::new() };
    let (server, _) = LeiosFetchServer::new().step(LfEvent::Received(request));
    let (_, action) = server.step(LfEvent::TxsRead(None));
    assert_eq!(action, LfAction::Stop);
    let origin = LfMessage::BlockTxsRequest { point: Point::Origin, bitmap: BTreeMap::new() };
    let (_, action) = LeiosFetchServer::new().step(LfEvent::Received(origin));
    assert_eq!(action, LfAction::Stop);
}
