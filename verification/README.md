# zmq_service

Many-to-many publish/subscribe of protobuf messages over ZeroMQ through an
XSUB/XPUB forwarding broker, plus a ROUTER/DEALER request relay.

- `src/` is the verified library: the subscription table of a
  service (`registry`), the framing of a publication and the sending side
  that turns frames into two-part messages (`publish`), the receiving side
  that reads an envelope and routes the message to its callback
  (`subscribe`), the topic's UTF-8 frame (`topic`), the relay that moves
  whole messages between its two sockets (`relay`) and the printed lines
  (`console`).  The subscription table is a vector of (topic, callback)
  entries with distinct topics rather than a `HashMap<String, _>`: with a
  `String` key, the hash map's specification does not even let a lookup of
  the key just inserted be proved to find it.  The proof
  functions in these modules state the laws that tie the steps together,
  such as a published message reaching the callback registered for its
  topic.
- `app/` holds the programs: sockets, threads, the channel between a
  service's publishing call and its sending thread, and protobuf
  (de)serialisation of the generated message types.
- `tests/` runs the library on concrete values.
