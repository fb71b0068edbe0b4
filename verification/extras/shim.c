/* Functions around the macros and inline functions of DPDK that the program calls. */

#include <string.h>

#include <rte_errno.h>
#include <rte_ethdev.h>
#include <rte_lcore.h>
#include <rte_mbuf.h>

int dpdk_errno(void) { return rte_errno; }

unsigned int dpdk_max_lcore(void) { return RTE_MAX_LCORE; }

unsigned int dpdk_mempool_available(struct rte_mempool *pool) {
    return rte_mempool_avail_count(pool);
}

int dpdk_eth_dev_configure(uint16_t port, uint16_t rx, uint16_t tx, int rss) {
    struct rte_eth_conf config;
    memset(&config, 0, sizeof(config));
    if (rss) {
        config.rxmode.mq_mode = RTE_ETH_MQ_RX_RSS;
        config.rx_adv_conf.rss_conf.rss_hf = RTE_ETH_RSS_IP;
    }
    return rte_eth_dev_configure(port, rx, tx, &config);
}

uint16_t dpdk_rx_burst(uint16_t port, uint16_t queue, struct rte_mbuf **packets, uint16_t count) {
    return rte_eth_rx_burst(port, queue, packets, count);
}

uint16_t dpdk_tx_burst(uint16_t port, uint16_t queue, struct rte_mbuf **packets, uint16_t count) {
    return rte_eth_tx_burst(port, queue, packets, count);
}

struct rte_mbuf *dpdk_pktmbuf_alloc(struct rte_mempool *pool) { return rte_pktmbuf_alloc(pool); }

void dpdk_pktmbuf_free(struct rte_mbuf *packet) { rte_pktmbuf_free(packet); }

char *dpdk_pktmbuf_prepend(struct rte_mbuf *packet, uint16_t length) {
    return rte_pktmbuf_prepend(packet, length);
}

char *dpdk_pktmbuf_append(struct rte_mbuf *packet, uint16_t length) {
    return rte_pktmbuf_append(packet, length);
}

struct rte_mbuf *dpdk_mbuf_next(struct rte_mbuf *packet) { return packet->next; }

void *dpdk_mbuf_data(struct rte_mbuf *packet) { return rte_pktmbuf_mtod(packet, void *); }

uint16_t dpdk_mbuf_data_length(struct rte_mbuf *packet) { return rte_pktmbuf_data_len(packet); }

uint16_t dpdk_mbuf_headroom(struct rte_mbuf *packet) { return packet->data_off; }

uint16_t dpdk_mbuf_tailroom(struct rte_mbuf *packet) {
    return packet->buf_len - packet->data_off - packet->data_len;
}
