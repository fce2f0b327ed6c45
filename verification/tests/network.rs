use des::network::JacksonNetwork;

#[test]
fn jobs_queue_route_and_exit() {
    let mut net = JacksonNetwork::new(2);
    assert_eq!(net.num_nodes(), 2);
    assert_eq!(net.on_arrival(0, 7), Some(7));
    assert_eq!(net.on_arrival(0, 8), None);
    assert_eq!(net.system_size(0), 2);

    let out = net.on_departure(0, 7, Some(1));
    assert_eq!(out.routed_start, Some((1, 7)));
    assert!(!out.exited);
    assert_eq!(out.next_here, Some(8));
    assert_eq!(net.system_size(0), 1);
    assert_eq!(net.system_size(1), 1);

    let out = net.on_departure(1, 7, None);
    assert!(out.exited);
    assert_eq!(out.routed_start, None);
    assert_eq!(out.next_here, None);
    assert_eq!(net.jobs_completed, 1);
    assert_eq!(net.system_size(1), 0);

    // Node 1 is idle again, so job 8 starts there at once.
    let out = net.on_departure(0, 8, Some(1));
    assert_eq!(out.routed_start, Some((1, 8)));
    assert_eq!(out.next_here, None);
    assert_eq!(net.system_size(0), 0);
}

#[test]
fn job_routed_to_busy_node_waits() {
    let mut net = JacksonNetwork::new(2);
    net.on_arrival(1, 1);
    net.on_arrival(0, 2);
    let out = net.on_departure(0, 2, Some(1));
    assert_eq!(out.routed_start, None);
    assert_eq!(net.system_size(1), 2);
    let out = net.on_departure(1, 1, None);
    assert_eq!(out.next_here, Some(2));
    assert_eq!(net.system_size(1), 1);
}

#[test]
fn job_routed_back_to_its_node_with_others_waiting_joins_the_back() {
    // The freed server takes the oldest waiting job; the job that loops back waits
    // behind it, so the node still serves one job at a time.
    let mut net = JacksonNetwork::new(1);
    net.on_arrival(0, 1);
    net.on_arrival(0, 2);
    let out = net.on_departure(0, 1, Some(0));
    assert_eq!(out.routed_start, None);
    assert_eq!(out.next_here, Some(2));
    assert_eq!(net.system_size(0), 2);
    let out = net.on_departure(0, 2, None);
    assert_eq!(out.next_here, Some(1));
    assert_eq!(net.system_size(0), 1);
}

#[test]
fn job_routed_back_to_its_idle_node_starts_again() {
    let mut net = JacksonNetwork::new(1);
    net.on_arrival(0, 1);
    let out = net.on_departure(0, 1, Some(0));
    assert_eq!(out.routed_start, Some((0, 1)));
    assert_eq!(out.next_here, None);
    assert_eq!(net.system_size(0), 1);
}

#[test]
fn jobs_are_conserved_across_routing_and_exits() {
    let mut net = JacksonNetwork::new(3);
    for job in 0..5u64 {
        net.on_arrival((job % 3) as usize, job);
    }
    let total = |net: &JacksonNetwork| (0..3).map(|i| net.system_size(i)).sum::<u64>() + net.jobs_completed;
    assert_eq!(total(&net), 5);
    net.on_departure(0, 0, Some(2));
    assert_eq!(total(&net), 5);
    net.on_departure(1, 1, None);
    assert_eq!(total(&net), 5);
    net.on_departure(2, 2, Some(0));
    assert_eq!(total(&net), 5);
    assert_eq!(net.jobs_completed, 1);
}
