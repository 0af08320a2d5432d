use blaise::gtfs::{
    GtfsArea, GtfsData, GtfsRoute, GtfsShape, GtfsStop, GtfsStopArea, GtfsStopTime, GtfsTable,
    GtfsTransfer, GtfsTrip,
};
use blaise::raptor::itinerary::LegType;
use blaise::raptor::{Allocator, Error, Location, Parent, Point, Raptor, Update};
use blaise::repository::{LocationType, Repository};
use blaise::time::{Time, TimeConstraint};

fn stop(id: &str, name: &str) -> GtfsStop {
    GtfsStop {
        stop_id: id.to_string(),
        stop_name: name.to_string(),
        location_type: None,
        parent_station: None,
        platform_code: None,
    }
}

fn stop_time(trip: &str, stop: &str, time: &str, seq: u16) -> GtfsStopTime {
    GtfsStopTime {
        trip_id: trip.to_string(),
        arrival_time: time.to_string(),
        departure_time: time.to_string(),
        stop_id: stop.to_string(),
        stop_sequence: seq,
        stop_headsign: None,
        pickup_type: 0,
        drop_off_type: 0,
        timepoint: None,
        pickup_booking_rule_id: None,
        drop_off_booking_rule_id: None,
    }
}

fn trip(route: &str, id: &str) -> GtfsTrip {
    GtfsTrip {
        route_id: route.to_string(),
        service_id: "1".to_string(),
        trip_id: id.to_string(),
        trip_headsign: None,
        trip_short_name: None,
        direction_id: None,
        shape_id: None,
    }
}

/// Stops A, B, C and D; route R1 runs A-B-C at 08:00 and 09:00, route R2
/// runs C-D at 08:30; area X holds A, area Y holds nothing.
fn feed() -> GtfsData {
    let mut data = GtfsData::new();
    data.stops = vec![stop("A", "Alpha"), stop("B", "Beta"), stop("C", "Gamma"), stop("D", "Delta")];
    data.areas = vec![
        GtfsArea {
            area_id: "X".to_string(),
            area_name: "Xland".to_string(),
            samtrafiken_area_type: "t".to_string(),
        },
        GtfsArea {
            area_id: "Y".to_string(),
            area_name: "Yland".to_string(),
            samtrafiken_area_type: "t".to_string(),
        },
    ];
    data.stop_areas = vec![GtfsStopArea { area_id: "X".to_string(), stop_id: "A".to_string() }];
    data.routes = vec![
        GtfsRoute {
            route_id: "R1".to_string(),
            agency_id: "ag".to_string(),
            route_short_name: Some("1".to_string()),
            route_long_name: None,
            route_type: 3,
            route_desc: None,
        },
        GtfsRoute {
            route_id: "R2".to_string(),
            agency_id: "ag".to_string(),
            route_short_name: None,
            route_long_name: None,
            route_type: 3,
            route_desc: None,
        },
    ];
    data.trips = vec![trip("R1", "T1"), trip("R1", "T2"), trip("R2", "T3")];
    data.transfers = vec![GtfsTransfer {
        from_stop_id: "B".to_string(),
        to_stop_id: "D".to_string(),
        transfer_type: "2".to_string(),
        min_transfer_time: Some(600),
        from_trip_id: None,
        to_trip_id: None,
    }];
    data.stop_times = vec![
        stop_time("T1", "A", "08:00:00", 1),
        stop_time("T1", "B", "08:10:00", 2),
        stop_time("T1", "C", "08:20:00", 3),
        stop_time("T2", "B", "09:10:00", 2),
        stop_time("T2", "A", "09:00:00", 1),
        stop_time("T2", "C", "09:20:00", 3),
        stop_time("T3", "C", "08:30:00", 1),
        stop_time("T3", "D", "08:45:00", 2),
    ];
    data
}

fn repository() -> Repository {
    let data = feed();
    assert!(data.is_loadable());
    Repository::new().load_gtfs(data)
}

fn stop_id(location: &Location) -> &str {
    match location {
        Location::Stop(id) => id.as_str(),
        _ => panic!("expected a stop"),
    }
}

#[test]
fn network_loads_entities_in_row_order() {
    let repo = repository();
    assert_eq!(repo.stops.len(), 4);
    assert_eq!(repo.stops[2].id, "C");
    assert_eq!(repo.stops[2].normalized_name, "gamma");
    assert_eq!(repo.stops[2].index, 2);
    assert!(matches!(repo.stops[0].location_type, LocationType::Stop));
    assert_eq!(repo.trips[1].route_idx, 0);
    assert_eq!(repo.trips[2].route_idx, 1);
    assert_eq!(repo.route_to_trips[0], vec![0, 1]);
    assert_eq!(repo.area_to_stops[0], vec![0]);
    assert_eq!(repo.stop_to_area[0], Some(0));
    assert_eq!(repo.stop_to_area[1], None);
    assert_eq!(repo.stop_to_transfers[1], vec![0]);
    assert_eq!(repo.transfers[0].to_stop_idx, 3);
}

#[test]
fn network_orders_stop_times_by_sequence() {
    let repo = repository();
    let times = repo.stop_times_by_trip_idx(1);
    let stops: Vec<u32> = times.iter().map(|st| st.stop_idx).collect();
    assert_eq!(stops, vec![0, 1, 2]);
    assert_eq!(times[0].departure_time, Time::from_seconds(9 * 3600));
    assert_eq!(times[2].internal_idx, 2);
    assert_eq!(repo.stop_to_trips[0], vec![0, 1]);
}

#[test]
fn network_groups_trips_into_raptor_routes() {
    let repo = repository();
    assert_eq!(repo.raptor_routes.len(), 2);
    assert_eq!(repo.raptor_routes[0].stops, vec![0, 1, 2]);
    assert_eq!(repo.raptor_routes[0].trips, vec![0, 1]);
    assert_eq!(repo.raptor_routes[1].stops, vec![2, 3]);
    assert_eq!(repo.stop_to_raptors[2], vec![0, 1]);
    assert_eq!(repo.route_to_raptors[1], vec![1]);
}

#[test]
fn network_lookups() {
    let repo = repository();
    assert_eq!(repo.stop_by_id("B").unwrap().name, "Beta");
    assert!(repo.stop_by_id("Z").is_none());
    assert_eq!(repo.area_by_stop_id("A").unwrap().id, "X");
    assert!(repo.area_by_stop_id("B").is_none());
    assert_eq!(repo.trips_by_route_id("R1").unwrap().len(), 2);
    assert_eq!(repo.route_by_trip_id("T3").unwrap().id, "R2");
    assert_eq!(repo.routes_by_stop_id("C").unwrap().len(), 3);
    assert_eq!(repo.transfers_by_stop_id("B").unwrap().len(), 1);
    assert_eq!(repo.stops_by_area_id("X").unwrap().len(), 1);
    assert_eq!(repo.stop_times_by_route_id("R1").unwrap().len(), 2);
    assert_eq!(repo.raptors_by_stop_id("C").unwrap().len(), 2);
}

#[test]
fn network_rejects_dangling_reference() {
    let mut data = feed();
    data.stop_times.push(stop_time("T9", "A", "10:00:00", 1));
    assert!(!data.is_loadable());
    let mut data = feed();
    data.stops[0].location_type = Some(7);
    assert!(!data.is_loadable());
    let mut data = feed();
    data.stop_times[0].arrival_time = "99999999:00:00".to_string();
    assert!(!data.is_loadable());
    let mut data = feed();
    data.trips.push(trip("R1", "T4"));
    assert!(!data.is_loadable());
}

#[test]
fn network_table_order_last_wins() {
    let tables = vec![
        GtfsTable::Stops(vec![stop("A", "a")]),
        GtfsTable::Unkown,
        GtfsTable::Stops(vec![stop("B", "b"), stop("C", "c")]),
    ];
    let data = GtfsData::from(tables);
    assert_eq!(data.stops.len(), 2);
    assert_eq!(data.stops[0].stop_id, "B");
    assert!(data.trips.is_empty());
}

#[test]
fn network_ride_to_the_end_of_a_line() {
    let repo = repository();
    let search = Raptor::new(&repo, Location::Stop("A".to_string()), Location::Stop("C".to_string()))
        .departure_at(Time::from_hms("07:30:00").unwrap());
    let it = search.solve().unwrap();
    assert_eq!(it.legs.len(), 1);
    let leg = &it.legs[0];
    assert_eq!(stop_id(&leg.from), "A");
    assert_eq!(stop_id(&leg.to), "C");
    assert_eq!(leg.leg_type, LegType::Transit(0));
    assert_eq!(leg.departue_time, Time::from_seconds(8 * 3600));
    assert_eq!(leg.arrival_time, Time::from_seconds(8 * 3600 + 20 * 60));
    assert_eq!(leg.stops.len(), 3);
    assert_eq!(stop_id(&leg.stops[1].location), "B");
    assert_eq!(stop_id(&it.from), "A");
    assert_eq!(stop_id(&it.to), "C");
}

#[test]
fn network_later_departure_takes_later_trip() {
    let repo = repository();
    let it = Raptor::new(&repo, Location::Stop("A".to_string()), Location::Stop("B".to_string()))
        .with_time_constraint(TimeConstraint::Departure(Time::from_seconds(8 * 3600 + 60)))
        .solve()
        .unwrap();
    assert_eq!(it.legs.len(), 1);
    assert_eq!(it.legs[0].leg_type, LegType::Transit(1));
    assert_eq!(it.legs[0].arrival_time, Time::from_seconds(9 * 3600 + 10 * 60));
    assert_eq!(it.legs[0].stops.len(), 2);
}

#[test]
fn network_change_between_lines() {
    let repo = repository();
    let it = repo
        .router(Location::Stop("A".to_string()), Location::Stop("D".to_string()))
        .departure_at(Time::from_seconds(7 * 3600))
        .solve()
        .unwrap();
    for k in 0..it.legs.len() - 1 {
        assert_eq!(stop_id(&it.legs[k].to), stop_id(&it.legs[k + 1].from));
        assert!(it.legs[k].arrival_time <= it.legs[k + 1].departue_time);
    }
    assert_eq!(stop_id(&it.legs.last().unwrap().to), "D");
    assert!(matches!(it.legs[0].leg_type, LegType::Transit(_)));
}

#[test]
fn network_unknown_stop_and_area() {
    let repo = repository();
    let r = Raptor::new(&repo, Location::Stop("Q".to_string()), Location::Stop("C".to_string())).solve();
    assert!(matches!(r, Err(Error::InvalidStopID)));
    let r = Raptor::new(&repo, Location::Stop("A".to_string()), Location::Area("Q".to_string())).solve();
    assert!(matches!(r, Err(Error::InvalidAreaID)));
}

#[test]
fn network_no_way_back() {
    let repo = repository();
    let r = Raptor::new(&repo, Location::Stop("C".to_string()), Location::Stop("A".to_string()))
        .departure_at(Time::from_seconds(0))
        .solve();
    assert!(matches!(r, Err(Error::NoRouteFound)));
    let r = Raptor::new(&repo, Location::Stop("A".to_string()), Location::Stop("C".to_string()))
        .departure_at(Time::from_seconds(10 * 3600))
        .solve();
    assert!(matches!(r, Err(Error::NoRouteFound)));
}

#[test]
fn network_area_without_stops_starts_nowhere() {
    let repo = repository();
    let r = Raptor::new(&repo, Location::Area("Y".to_string()), Location::Stop("C".to_string()))
        .departure_at(Time::from_seconds(0))
        .solve();
    assert!(matches!(r, Err(Error::NoRouteFound)));
}

#[test]
fn network_from_an_area() {
    let repo = repository();
    let it = Raptor::new(&repo, Location::Area("X".to_string()), Location::Stop("C".to_string()))
        .departure_at(Time::from_seconds(0))
        .solve()
        .unwrap();
    assert!(matches!(it.from, Location::Area(_)));
    assert_eq!(stop_id(&it.legs[0].from), "A");
}

#[test]
fn network_arrive_by_takes_latest_trip() {
    let repo = repository();
    let it = Raptor::new(&repo, Location::Stop("A".to_string()), Location::Stop("C".to_string()))
        .arrival_at(Time::from_hms("09:30:00").unwrap())
        .solve()
        .unwrap();
    assert_eq!(it.legs.len(), 1);
    let leg = &it.legs[0];
    assert_eq!(stop_id(&leg.from), "A");
    assert_eq!(stop_id(&leg.to), "C");
    assert_eq!(leg.leg_type, LegType::Transit(1));
    assert_eq!(leg.departue_time, Time::from_seconds(9 * 3600));
    assert_eq!(leg.arrival_time, Time::from_seconds(9 * 3600 + 20 * 60));
}

#[test]
fn network_arrive_by_with_a_change() {
    let repo = repository();
    let it = Raptor::new(&repo, Location::Stop("A".to_string()), Location::Stop("D".to_string()))
        .arrival_at(Time::from_hms("09:00:00").unwrap())
        .solve()
        .unwrap();
    assert_eq!(it.legs.len(), 2);
    assert_eq!(stop_id(&it.legs[0].from), "A");
    assert_eq!(stop_id(&it.legs[0].to), "C");
    assert_eq!(it.legs[0].leg_type, LegType::Transit(0));
    assert_eq!(it.legs[0].departue_time, Time::from_seconds(8 * 3600));
    assert_eq!(stop_id(&it.legs[1].from), "C");
    assert_eq!(stop_id(&it.legs[1].to), "D");
    assert_eq!(it.legs[1].leg_type, LegType::Transit(2));
    assert_eq!(it.legs[1].arrival_time, Time::from_seconds(8 * 3600 + 45 * 60));
    assert!(it.legs[0].arrival_time <= it.legs[1].departue_time);
}

#[test]
fn network_arrive_by_too_early() {
    let repo = repository();
    let r = Raptor::new(&repo, Location::Stop("A".to_string()), Location::Stop("C".to_string()))
        .arrival_at(Time::from_hms("08:10:00").unwrap())
        .solve();
    assert!(matches!(r, Err(Error::NoRouteFound)));
}

#[test]
fn network_repeated_id_resolves_to_last_row() {
    let mut data = feed();
    data.stops.push(stop("B", "Beta again"));
    assert!(data.is_loadable());
    let repo = Repository::new().load_gtfs(data);
    assert_eq!(repo.stops.len(), 5);
    assert_eq!(repo.stop_by_id("B").unwrap().name, "Beta again");
    assert_eq!(repo.stop_idx_by_id("B"), Some(4));
}

#[test]
fn network_split_trip_keeps_its_last_run() {
    let mut data = feed();
    data.stop_times.push(stop_time("T1", "D", "08:30:00", 4));
    assert!(data.is_loadable());
    let repo = Repository::new().load_gtfs(data);
    assert_eq!(repo.stop_times.len(), 9);
    assert_eq!(repo.trip_to_stop_slice[0].start_idx, 8);
    assert_eq!(repo.trip_to_stop_slice[0].count, 1);
    assert_eq!(repo.stop_times[8].stop_idx, 3);
    assert_eq!(repo.stop_times[0].slice.count, 3);
    assert_eq!(repo.stop_times[3].stop_idx, 0);
    assert_eq!(repo.stop_times[4].stop_idx, 1);
    assert_eq!(repo.stop_times[4].index, 4);
    assert_eq!(repo.stop_times[4].internal_idx, 1);
}

#[test]
fn network_allocator_applies_only_improvements() {
    let repo = repository();
    let mut alloc = Allocator::new(&repo);
    assert_eq!(alloc.tau_star.len(), 4);
    assert_eq!(alloc.parents.len(), 4 * 15);
    let ride = |to: u32, at: u32| {
        Update::new(
            to,
            Time::from_seconds(at),
            Parent::new_walk(Point::Stop(0), Point::Stop(to), Time::from_seconds(0), Time::from_seconds(at)),
        )
    };
    alloc.updates.push(ride(2, 500));
    alloc.updates.push(ride(2, 700));
    alloc.updates.push(ride(2, 400));
    alloc.run_updates(1);
    assert!(alloc.updates.is_empty());
    assert_eq!(alloc.tau_star[2], Some(Time::from_seconds(400)));
    assert_eq!(alloc.curr_labels[2], Some(Time::from_seconds(400)));
    assert_eq!(alloc.parents[flat_index(1, 2)].unwrap().arrival_time, Time::from_seconds(400));
    assert!(alloc.tau_star[1].is_none());
    alloc.reset();
    assert!(alloc.tau_star[2].is_none());
    assert!(alloc.parents.iter().all(|p| p.is_none()));
}

fn flat_index(round: usize, stop: usize) -> usize {
    blaise::raptor::flat_matrix(round, stop, 4)
}

fn shape_point(id: &str, seq: u32) -> GtfsShape {
    GtfsShape { shape_id: id.to_string(), shape_pt_sequence: seq }
}

#[test]
fn network_shapes_follow_their_trips() {
    let mut data = feed();
    data.trips[0].shape_id = Some("S1".to_string());
    data.trips[2].shape_id = Some("S2".to_string());
    data.trips[1].shape_id = Some("missing".to_string());
    data.shapes = vec![
        shape_point("S1", 3),
        shape_point("S2", 2),
        shape_point("S1", 1),
        shape_point("S2", 1),
        shape_point("S1", 2),
    ];
    assert!(data.is_loadable());
    let repo = Repository::new().load_gtfs(data);
    assert_eq!(repo.shapes_by_trip_idx(0), Some(&[2u32, 4, 0][..]));
    assert_eq!(repo.shapes_by_trip_idx(2), Some(&[3u32, 1][..]));
    assert_eq!(repo.shapes_by_trip_idx(1), None);
    assert_eq!(repo.shapes_by_trip_idx(7), None);
    assert_eq!(repo.shape_points.len(), 5);
}

#[test]
fn network_shapes_keep_row_order_on_equal_sequence() {
    let mut data = feed();
    data.trips[0].shape_id = Some("S".to_string());
    data.shapes = vec![shape_point("S", 5), shape_point("S", 1), shape_point("S", 5)];
    let repo = Repository::new().load_gtfs(data);
    assert_eq!(repo.shapes_by_trip_idx(0), Some(&[1u32, 0, 2][..]));
    assert_eq!(repo.shapes_by_trip_idx(2), None);
}

#[test]
fn network_empty_repository_finds_nothing() {
    let repo = Repository::new();
    assert!(repo.raptor_routes.is_empty());
    let mut allocator = Allocator::new(&repo);
    let r = Raptor::new(&repo, Location::Stop("A".to_string()), Location::Stop("B".to_string()))
        .departure_at(Time::from_seconds(28800))
        .solve_with_allocator(&mut allocator);
    assert!(matches!(r, Err(Error::InvalidStopID)));
    allocator.reset();
    let r = Raptor::new(&repo, Location::Coordinate(vec![]), Location::Coordinate(vec![]))
        .departure_at(Time::from_seconds(28800))
        .solve_with_allocator(&mut allocator);
    assert!(matches!(r, Err(Error::NoRouteFound)));
}

#[test]
fn network_allocator_reused_after_reset() {
    let repo = repository();
    let mut allocator = Allocator::new(&repo);
    let first = Raptor::new(&repo, Location::Stop("A".to_string()), Location::Stop("C".to_string()))
        .departure_at(Time::from_seconds(8 * 3600))
        .solve_with_allocator(&mut allocator)
        .unwrap();
    allocator.reset();
    let second = Raptor::new(&repo, Location::Stop("A".to_string()), Location::Stop("C".to_string()))
        .departure_at(Time::from_seconds(8 * 3600))
        .solve_with_allocator(&mut allocator)
        .unwrap();
    let fresh = Raptor::new(&repo, Location::Stop("A".to_string()), Location::Stop("C".to_string()))
        .departure_at(Time::from_seconds(8 * 3600))
        .solve()
        .unwrap();
    assert_eq!(first.legs.last().unwrap().arrival_time.0, 8 * 3600 + 20 * 60);
    assert_eq!(second.legs.last().unwrap().arrival_time.0, first.legs.last().unwrap().arrival_time.0);
    assert_eq!(fresh.legs.len(), second.legs.len());
    for (a, b) in fresh.legs.iter().zip(second.legs.iter()) {
        assert_eq!(stop_id(&a.from), stop_id(&b.from));
        assert_eq!(stop_id(&a.to), stop_id(&b.to));
        assert_eq!(a.departue_time, b.departue_time);
        assert_eq!(a.arrival_time, b.arrival_time);
        assert_eq!(a.leg_type, b.leg_type);
    }
}

#[test]
fn network_earliest_arrival_among_targets() {
    let repo = repository();
    let it = Raptor::new(&repo, Location::Stop("A".to_string()), Location::Stop("D".to_string()))
        .departure_at(Time::from_seconds(8 * 3600))
        .solve()
        .unwrap();
    assert!(it.legs.last().unwrap().arrival_time <= Time::from_seconds(8 * 3600 + 45 * 60));
    assert_eq!(stop_id(&it.legs.last().unwrap().to), "D");
}

fn plain_route(id: &str) -> GtfsRoute {
    GtfsRoute {
        route_id: id.to_string(),
        agency_id: "ag".to_string(),
        route_short_name: None,
        route_long_name: None,
        route_type: 3,
        route_desc: None,
    }
}

/// Line Q runs A-B-C; B is first reached in a later round than A, and only
/// from B can the earlier trip of Q be caught.
#[test]
fn network_route_reached_later_downstream_is_scanned_again() {
    let mut data = GtfsData::new();
    data.stops = vec![stop("O", "o"), stop("A", "a"), stop("B", "b"), stop("C", "c"), stop("D", "d")];
    data.routes = vec![plain_route("R1"), plain_route("R2"), plain_route("R3"), plain_route("Q")];
    data.trips = vec![
        trip("R1", "r1"),
        trip("R2", "r2"),
        trip("R3", "r3"),
        trip("Q", "q1"),
        trip("Q", "q2"),
    ];
    data.stop_times = vec![
        stop_time("r1", "O", "09:30:00", 1),
        stop_time("r1", "A", "09:50:00", 2),
        stop_time("r2", "O", "08:00:00", 1),
        stop_time("r2", "D", "08:10:00", 2),
        stop_time("r3", "D", "08:20:00", 1),
        stop_time("r3", "B", "08:40:00", 2),
        stop_time("q1", "A", "09:00:00", 1),
        stop_time("q1", "B", "09:10:00", 2),
        stop_time("q1", "C", "09:20:00", 3),
        stop_time("q2", "A", "10:00:00", 1),
        stop_time("q2", "B", "10:10:00", 2),
        stop_time("q2", "C", "10:20:00", 3),
    ];
    assert!(data.is_loadable());
    let repo = Repository::new().load_gtfs(data);
    let it = Raptor::new(&repo, Location::Stop("O".to_string()), Location::Stop("C".to_string()))
        .departure_at(Time::from_seconds(7 * 3600))
        .solve()
        .unwrap();
    assert_eq!(it.legs.last().unwrap().arrival_time, Time::from_seconds(9 * 3600 + 20 * 60));
    assert_eq!(it.legs.len(), 3);
    assert_eq!(stop_id(&it.legs[2].from), "B");
}

#[test]
fn network_raptor_lists_are_exact() {
    let repo = repository();
    for (r, rr) in repo.raptor_routes.iter().enumerate() {
        assert!(repo.route_to_raptors[rr.route_idx as usize].contains(&(r as u32)));
        for s in rr.stops.iter() {
            assert!(repo.stop_to_raptors[*s as usize].contains(&(r as u32)));
        }
    }
    let total: usize = repo.stop_to_raptors.iter().map(|l| l.len()).sum();
    let calls: usize = repo.raptor_routes.iter().map(|rr| rr.stops.len()).sum();
    assert_eq!(total, calls);
}

/// Arriving by a time, line Q (A-B-C) is reached at A and at C in the same
/// round; it must be scanned back from C, its latest marked stop, to reach B.
#[test]
fn network_arrive_by_scans_back_from_latest_marked_stop() {
    let mut data = GtfsData::new();
    data.stops = vec![stop("A", "a"), stop("B", "b"), stop("C", "c"), stop("Z", "z")];
    data.routes = vec![plain_route("R1"), plain_route("R2"), plain_route("Q")];
    data.trips = vec![trip("R1", "r1"), trip("R2", "r2"), trip("Q", "q1"), trip("Q", "q2")];
    data.stop_times = vec![
        stop_time("r1", "A", "11:50:00", 1),
        stop_time("r1", "Z", "12:00:00", 2),
        stop_time("r2", "C", "11:40:00", 1),
        stop_time("r2", "Z", "11:55:00", 2),
        stop_time("q1", "A", "11:00:00", 1),
        stop_time("q1", "B", "11:10:00", 2),
        stop_time("q1", "C", "11:20:00", 3),
        stop_time("q2", "A", "11:15:00", 1),
        stop_time("q2", "B", "11:25:00", 2),
        stop_time("q2", "C", "11:35:00", 3),
    ];
    assert!(data.is_loadable());
    let repo = Repository::new().load_gtfs(data);
    let it = Raptor::new(&repo, Location::Stop("B".to_string()), Location::Stop("Z".to_string()))
        .arrival_at(Time::from_seconds(12 * 3600))
        .solve()
        .unwrap();
    assert_eq!(it.legs[0].departue_time, Time::from_seconds(11 * 3600 + 25 * 60));
    assert_eq!(stop_id(&it.legs[0].from), "B");
    assert_eq!(stop_id(&it.legs.last().unwrap().to), "Z");
}

/// Leaving A at 07:00 for D, the ride to B (08:10) and the ten-minute
/// transfer from B to D arrive at 08:20, before the change to route R2 at
/// C, which reaches D at 08:45.
#[test]
fn network_transfer_after_a_ride_arrives_first() {
    let repo = repository();
    let it = repo
        .router(Location::Stop("A".to_string()), Location::Stop("D".to_string()))
        .departure_at(Time::from_seconds(7 * 3600))
        .solve()
        .unwrap();
    let last = it.legs.last().unwrap();
    assert_eq!(last.arrival_time, Time::from_seconds(8 * 3600 + 20 * 60));
    assert!(matches!(last.leg_type, LegType::Transfer));
    assert_eq!(stop_id(&last.from), "B");
    assert_eq!(stop_id(&last.to), "D");
    assert_eq!(it.legs[0].departue_time, Time::from_seconds(8 * 3600));
}

/// Every leg of an itinerary leaves no later than it arrives, leaving at a
/// time and arriving by one.
#[test]
fn network_legs_leave_before_they_arrive() {
    let repo = repository();
    let forward = repo
        .router(Location::Stop("A".to_string()), Location::Stop("D".to_string()))
        .departure_at(Time::from_seconds(7 * 3600))
        .solve()
        .unwrap();
    let backward = Raptor::new(&repo, Location::Stop("A".to_string()), Location::Stop("D".to_string()))
        .arrival_at(Time::from_seconds(9 * 3600))
        .solve()
        .unwrap();
    for it in [forward, backward] {
        for leg in it.legs.iter() {
            assert!(leg.departue_time <= leg.arrival_time);
        }
    }
}

/// Arriving at C by 09:30 from D, where no trip calls: the ten-minute
/// transfer listed from B to D, taken from D to B, reaches the 09:10 trip
/// from B, so the journey leaves D at 09:00.
#[test]
fn network_arrive_by_walks_to_the_first_ride() {
    let repo = repository();
    let it = Raptor::new(&repo, Location::Stop("D".to_string()), Location::Stop("C".to_string()))
        .arrival_at(Time::from_seconds(9 * 3600 + 30 * 60))
        .solve()
        .unwrap();
    let first = &it.legs[0];
    assert!(matches!(first.leg_type, LegType::Transfer));
    assert_eq!(stop_id(&first.from), "D");
    assert_eq!(stop_id(&first.to), "B");
    assert_eq!(first.departue_time, Time::from_seconds(9 * 3600));
    assert_eq!(stop_id(&it.legs.last().unwrap().to), "C");
    assert_eq!(it.legs.last().unwrap().arrival_time, Time::from_seconds(9 * 3600 + 20 * 60));
}
