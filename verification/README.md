# link_set

A link set manages a set of connections (links) between two endpoints. It
delivers the messages sent across the links in order, resends what the other
side has not acknowledged, and reestablishes the connection when the links
are lost, within the same epoch where it can.

The library under `src/` is written in Verus; its contracts and laws are
checked by the verifier:

- `protocol`: the frames exchanged on a link, written to and read back from
  bytes (`lemma_serialize_round_trip`, `law_cut_frame_is_eof`).
- `slice_manager`, `message_manager`, `message_laws`: messages cut into
  slices, acknowledged, resent and reassembled in order
  (`lemma_slices_rebuild_message`, `law_message_delivered`,
  `law_ack_keeps_unacknowledged`, `law_take_once`, `law_ack_moves_forward`).
  Whatever slices arrive, in any order, repeated or lost, the receiver hands
  out a prefix of the sent messages in order, each once
  (`law_in_order_delivery`); once the sender resends what is not
  acknowledged, every resent message is handed out
  (`law_resent_messages_delivered`).
- `state`: the decisions of the link set as a state machine from state and
  event to next state and actions (`spec` states them, `machine` carries them
  out, `laws` proves what holds across them, `delivery` proves that a
  connected link set notifies its user of the other side's messages in
  order, each once: `law_connected_delivers_in_order`,
  `law_connected_delivers_resent`).
- `links`: addresses and their two written forms, link entries with their
  latency, and the list of links in order of preference.
- `link_impls::tcp_link`: the framing of chunks on a TCP stream and the
  compact form of socket addresses.
- `connector_manager`, `link_set`, `debug`: the decisions of the connection
  tasks, the conversion of notices for the user, and debugging snapshots.

`app/` is the asynchronous runtime around the library (tokio tasks, channels,
timers, sockets and the user's `LinkSet` handle). It performs the actions
that the verified core decides and feeds back the events.
