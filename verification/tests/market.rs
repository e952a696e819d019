use eve_market_analysis::orders::{aggregate, Order, RegionOrders, TypeOrders};
use eve_market_analysis::worker::{
    page_count, pages_to_fetch, FetchError, FetchReason, PageOne, TickAction, Worker,
    WorkerHandler,
};
use eve_market_analysis::handler::MarketHandler;
use eve_market_analysis::registry::ClientRegistry;

fn mk_order(type_id: i32, is_buy_order: bool, tag: i32) -> Order {
    Order {
        duration: 90,
        is_buy_order,
        issued: format!("2020-01-01T00:00:{:02}Z", tag % 60),
        location_id: 60003760,
        price_bits: (100.5f64 + tag as f64).to_bits(),
        system_id: 30000142,
        type_id,
        volume_remain: tag,
        volume_total: tag + 1,
    }
}

fn bucket<'a>(r: &'a RegionOrders, type_id: i32) -> &'a TypeOrders {
    r.bucket_for(type_id).expect("bucket should exist")
}

#[test]
fn aggregation_partitions_every_order() {
    let orders = vec![
        mk_order(34, true, 1),
        mk_order(34, false, 2),
        mk_order(35, true, 3),
        mk_order(34, true, 4),
        mk_order(36, false, 5),
    ];
    let r = aggregate(10000002, orders);
    assert_eq!(r.region_id, 10000002);
    assert_eq!(r.orders.len(), 3);

    let b34 = bucket(&r, 34);
    assert_eq!(b34.buy_orders.len(), 2);
    assert_eq!(b34.sell_orders.len(), 1);
    // arrival order is preserved inside each side
    assert_eq!(b34.buy_orders[0].volume_remain, 1);
    assert_eq!(b34.buy_orders[1].volume_remain, 4);
    assert_eq!(b34.sell_orders[0].volume_remain, 2);

    let b35 = bucket(&r, 35);
    assert_eq!(b35.buy_orders.len(), 1);
    assert_eq!(b35.sell_orders.len(), 0);

    let b36 = bucket(&r, 36);
    assert_eq!(b36.buy_orders.len(), 0);
    assert_eq!(b36.sell_orders.len(), 1);

    // cardinality preserved: every order in exactly one list
    let total: usize = r
        .orders
        .iter()
        .map(|(_, t)| t.buy_orders.len() + t.sell_orders.len())
        .sum();
    assert_eq!(total, 5);

    // no bucket for a type that never occurred
    assert!(r.bucket_for(99).is_none());
}

#[test]
fn empty_page_one_single_page_yields_empty_snapshot() {
    let w = Worker::new(10000030);
    let page1 = PageOne {
        pages_header: Some(b"1".to_vec()),
        orders: Some(Vec::new()),
    };
    let r = w.pull_data(Some(page1), Vec::new()).expect("empty book is a payload, not an error");
    assert_eq!(r.region_id, 10000030);
    assert!(r.orders.is_empty());
}

#[test]
fn failed_middle_page_shrinks_but_does_not_abort() {
    // five pages; page 3's fetch fails
    let w = Worker::new(10000042);
    let page1 = PageOne {
        pages_header: Some(b"5".to_vec()),
        orders: Some(vec![mk_order(34, true, 1)]),
    };
    let later = vec![
        Some(vec![mk_order(34, false, 2)]),
        None,
        Some(vec![mk_order(35, true, 4)]),
        Some(vec![mk_order(34, true, 5)]),
    ];
    let r = w.pull_data(Some(page1), later).expect("partial success still yields a snapshot");
    let total: usize = r
        .orders
        .iter()
        .map(|(_, t)| t.buy_orders.len() + t.sell_orders.len())
        .sum();
    assert_eq!(total, 4);
    let b34 = bucket(&r, 34);
    assert_eq!(b34.buy_orders.len(), 2);
    assert_eq!(b34.sell_orders.len(), 1);
    // arrival order holds across pages: page one's order before page five's
    assert_eq!(b34.buy_orders[0].volume_remain, 1);
    assert_eq!(b34.buy_orders[1].volume_remain, 5);
    assert_eq!(bucket(&r, 35).buy_orders.len(), 1);
}

#[test]
fn page_one_transport_failure_aborts_cycle() {
    let w = Worker::new(1);
    let r = w.pull_data(None, Vec::new());
    assert_eq!(
        r,
        Err(FetchError::PageCountUnavailable(FetchReason::Transport))
    );
}

#[test]
fn missing_page_count_header_aborts_cycle() {
    let w = Worker::new(1);
    let page1 = PageOne { pages_header: None, orders: Some(Vec::new()) };
    let r = w.pull_data(Some(page1), Vec::new());
    assert_eq!(r, Err(FetchError::PageCountUnavailable(FetchReason::Format)));
}

#[test]
fn malformed_page_count_header_aborts_cycle() {
    let page1 = Some(PageOne {
        pages_header: Some(b"many".to_vec()),
        orders: Some(Vec::new()),
    });
    assert_eq!(
        page_count(&page1),
        Err(FetchError::PageCountUnavailable(FetchReason::Format))
    );
    let w = Worker::new(1);
    let r = w.pull_data(page1, Vec::new());
    assert_eq!(r, Err(FetchError::PageCountUnavailable(FetchReason::Format)));
}

#[test]
fn unreadable_page_one_body_aborts_cycle() {
    let w = Worker::new(1);
    let page1 = PageOne { pages_header: Some(b"2".to_vec()), orders: None };
    let r = w.pull_data(Some(page1), vec![Some(vec![mk_order(34, true, 1)])]);
    assert_eq!(r, Err(FetchError::PageOneUnreadable));
}

#[test]
fn page_count_reads_the_header() {
    let page1 = Some(PageOne {
        pages_header: Some(b"17".to_vec()),
        orders: Some(Vec::new()),
    });
    assert_eq!(page_count(&page1), Ok(17));
    assert_eq!(
        page_count(&None),
        Err(FetchError::PageCountUnavailable(FetchReason::Transport))
    );
}

#[test]
fn fan_out_covers_pages_two_through_total() {
    assert_eq!(pages_to_fetch(5), vec![2, 3, 4, 5]);
    assert_eq!(pages_to_fetch(2), vec![2]);
    assert!(pages_to_fetch(1).is_empty());
    assert!(pages_to_fetch(0).is_empty());
}

#[test]
fn worker_pulls_once_per_interval() {
    let mut w = WorkerHandler::new(10000030);
    // counter starts primed: one wait, then the first pull
    assert_eq!(w.tick(), TickAction::Wait);
    assert_eq!(w.tick(), TickAction::Pull);
    // a full interval of waits before the next pull
    for _ in 0..300 {
        assert_eq!(w.tick(), TickAction::Wait);
    }
    assert_eq!(w.tick(), TickAction::Pull);
}

#[test]
fn two_workers_tick_independently() {
    let mut a = WorkerHandler::new(10000030);
    let mut b = WorkerHandler::new(10000042);
    let mut pulls_a = 0;
    let mut pulls_b = 0;
    // interleave the two schedules; each must reach its own trigger
    for _ in 0..303 {
        if a.tick() == TickAction::Pull {
            pulls_a += 1;
        }
        if b.tick() == TickAction::Pull {
            pulls_b += 1;
        }
    }
    assert_eq!(pulls_a, 2);
    assert_eq!(pulls_b, 2);
}

#[test]
fn stop_lets_the_current_cycle_finish_then_halts() {
    let mut w = WorkerHandler::new(1);
    assert_eq!(w.tick(), TickAction::Wait);
    // the pull decision is already out: the in-flight cycle runs to completion
    assert_eq!(w.tick(), TickAction::Pull);
    w.stop();
    // from the next iteration on, nothing further is pulled or broadcast
    for _ in 0..400 {
        assert_eq!(w.tick(), TickAction::Halted);
    }
}

#[test]
fn market_handler_starts_and_stops_every_worker() {
    let ids = vec![10000030, 10000042, 10000030];  // duplicates kept
    let mut h = MarketHandler::new(ids, ClientRegistry::new());
    assert_eq!(h.workers.len(), 3);
    assert_eq!(h.workers[0].region_id, 10000030);
    assert_eq!(h.workers[1].region_id, 10000042);
    assert_eq!(h.workers[2].region_id, 10000030);
    h.stop();
    for w in h.workers.iter_mut() {
        assert_eq!(w.tick(), TickAction::Halted);
    }
    h.start();
    for w in h.workers.iter_mut() {
        assert_ne!(w.tick(), TickAction::Halted);
    }
    assert_eq!(h.clients().len(), 0);
}
